//! Parsing of IP address literals, and the grammar of CIDR network
//! notation.
//!
//! The grammar is stated as spec functions over character sequences, in two
//! flavors that differ only where the two consumers differ: the address
//! grammar (`strict`) rejects leading zeros in a dotted quad and requires
//! "::" to stand for at least one zero group; the network grammar of the
//! subnet parser accepts leading zeros and lets "::" stand for none.
//! The executable parser below implements the address grammar and is proved
//! to return exactly what the spec functions denote.

use vstd::prelude::*;
use crate::addr::{dec_text, digit_char, v4_text, IpAddress};

verus! {

/// A decimal digit.
pub open spec fn is_dec_digit(c: char) -> bool {
    48 <= c as u32 <= 57
}

/// The value of a decimal digit.
pub open spec fn dec_digit_val(c: char) -> int {
    c as u32 - 48
}

/// A hexadecimal digit, either case.
pub open spec fn is_hex_digit(c: char) -> bool {
    48 <= c as u32 <= 57 || 97 <= c as u32 <= 102 || 65 <= c as u32 <= 70
}

/// The value of a hexadecimal digit.
pub open spec fn hex_digit_val(c: char) -> int {
    if 48 <= c as u32 <= 57 {
        c as u32 - 48
    } else if 97 <= c as u32 <= 102 {
        c as u32 - 87
    } else {
        c as u32 - 55
    }
}

/// The number of consecutive decimal digits at position `i`.
pub open spec fn digit_run_len(s: Seq<char>, i: int) -> int
    decreases s.len() - i,
{
    if 0 <= i < s.len() && is_dec_digit(s[i]) {
        1 + digit_run_len(s, i + 1)
    } else {
        0
    }
}

/// The number of consecutive hexadecimal digits at position `i`.
pub open spec fn hex_run_len(s: Seq<char>, i: int) -> int
    decreases s.len() - i,
{
    if 0 <= i < s.len() && is_hex_digit(s[i]) {
        1 + hex_run_len(s, i + 1)
    } else {
        0
    }
}

/// The value of a sequence of decimal digits.
pub open spec fn dec_val(s: Seq<char>) -> int
    decreases s.len(),
{
    if s.len() == 0 {
        0
    } else {
        dec_val(s.drop_last()) * 10 + dec_digit_val(s.last())
    }
}

/// The value of a sequence of hexadecimal digits.
pub open spec fn hex_val(s: Seq<char>) -> int
    decreases s.len(),
{
    if s.len() == 0 {
        0
    } else {
        hex_val(s.drop_last()) * 16 + hex_digit_val(s.last())
    }
}

/// Parses one octet of a dotted quad at position `i`: the maximal digit run
/// there, one to three digits long, with a value of at most 255. The strict
/// flavor also rejects a leading zero in a multi-digit run. Yields the
/// value and the position after the run.
pub open spec fn parse_octet_at(s: Seq<char>, i: int, strict: bool) -> Option<(int, int)> {
    let n = digit_run_len(s, i);
    if n < 1 || n > 3 {
        None
    } else if strict && n > 1 && s[i] == '0' {
        None
    } else {
        let v = dec_val(s.subrange(i, i + n));
        if 0 <= v <= 255 {
            Some((v, i + n))
        } else {
            None
        }
    }
}

/// Parses '.' followed by an octet at position `i`.
pub open spec fn parse_dot_octet_at(s: Seq<char>, i: int, strict: bool) -> Option<(int, int)> {
    if 0 <= i < s.len() && s[i] == '.' {
        parse_octet_at(s, i + 1, strict)
    } else {
        None
    }
}

/// Parses a dotted quad at position `i`: four octets separated by dots.
/// Yields the 32-bit value and the position after the last octet; the text
/// may continue past it.
pub open spec fn parse_v4_at(s: Seq<char>, i: int, strict: bool) -> Option<(int, int)> {
    match parse_octet_at(s, i, strict) {
        Some(p1) => match parse_dot_octet_at(s, p1.1, strict) {
            Some(p2) => match parse_dot_octet_at(s, p2.1, strict) {
                Some(p3) => match parse_dot_octet_at(s, p3.1, strict) {
                    Some(p4) => Some(
                        (p1.0 * 0x1000000 + p2.0 * 0x10000 + p3.0 * 256 + p4.0, p4.1),
                    ),
                    None => None,
                },
                None => None,
            },
            None => None,
        },
        None => None,
    }
}

/// The IPv4 address that the whole of `s` denotes, if any.
pub open spec fn spec_parse_v4(s: Seq<char>) -> Option<int> {
    match parse_v4_at(s, 0, true) {
        Some(p) => if p.1 == s.len() {
            Some(p.0)
        } else {
            None
        },
        None => None,
    }
}

/// Parses one 16-bit group at position `i`: the maximal hex digit run
/// there, one to four digits long.
pub open spec fn parse_group_at(s: Seq<char>, i: int) -> Option<(int, int)> {
    let n = hex_run_len(s, i);
    if 1 <= n <= 4 {
        let v = hex_val(s.subrange(i, i + n));
        if 0 <= v <= 0xffff {
            Some((v, i + n))
        } else {
            None
        }
    } else {
        None
    }
}

/// Reads up to `limit` colon-separated groups at position `i`; `first` says
/// whether the group under the cursor is the first of its run, which no
/// separator precedes. Wherever at least two group slots remain, a trailing
/// embedded dotted quad is tried first and ends the run as two groups.
/// Yields the groups read, the next position, and whether an embedded quad
/// ended the run.
pub open spec fn read_groups(s: Seq<char>, i: int, limit: int, first: bool, strict: bool) -> (
    Seq<u16>,
    int,
    bool,
)
    decreases limit,
{
    if limit <= 0 {
        (Seq::empty(), i, false)
    } else {
        let j = if first {
            i
        } else if 0 <= i < s.len() && s[i] == ':' {
            i + 1
        } else {
            -1
        };
        if j < 0 {
            (Seq::empty(), i, false)
        } else {
            let quad = if limit >= 2 {
                parse_v4_at(s, j, strict)
            } else {
                None
            };
            match quad {
                Some(p) => (seq![(p.0 / 0x10000) as u16, (p.0 % 0x10000) as u16], p.1, true),
                None => match parse_group_at(s, j) {
                    Some(g) => {
                        let rest = read_groups(s, g.1, limit - 1, false, strict);
                        (seq![g.0 as u16].add(rest.0), rest.1, rest.2)
                    },
                    None => (Seq::empty(), i, false),
                },
            }
        }
    }
}

/// The 128-bit value of eight 16-bit groups, most significant first.
pub open spec fn v6_value(gs: Seq<u16>) -> int
    recommends
        gs.len() == 8,
{
    gs[0] * 0x10000000000000000000000000000 + gs[1] * 0x1000000000000000000000000 + gs[2]
        * 0x100000000000000000000 + gs[3] * 0x10000000000000000 + gs[4] * 0x1000000000000 + gs[5]
        * 0x100000000 + gs[6] * 0x10000 + gs[7]
}

/// That many zero groups.
pub open spec fn zero_groups(n: int) -> Seq<u16> {
    Seq::new(n as nat, |k: int| 0u16)
}

/// Parses an IPv6 literal at the start of `s`: eight groups, or fewer with
/// one "::" standing for the missing zero groups. In the strict flavor
/// "::" stands for at least one group; the network grammar accepts eight
/// groups beside a "::". An embedded dotted quad may supply the last two
/// groups. Yields the value and the position after the literal; the text
/// may continue past it.
pub open spec fn parse_v6_at(s: Seq<char>, strict: bool) -> Option<(int, int)> {
    let head = read_groups(s, 0, 8, true, strict);
    if head.0.len() == 8 {
        Some((v6_value(head.0), head.1))
    } else if head.2 {
        None
    } else if head.1 + 1 < s.len() && s[head.1] == ':' && s[head.1 + 1] == ':' {
        let limit = if strict {
            7 - head.0.len()
        } else {
            8 - head.0.len()
        };
        let tail = read_groups(s, head.1 + 2, limit, true, strict);
        Some(
            (v6_value(head.0.add(zero_groups(8 - head.0.len() - tail.0.len())).add(tail.0)), tail.1),
        )
    } else {
        None
    }
}

/// The IPv6 address that the whole of `s` denotes, if any.
pub open spec fn spec_parse_v6(s: Seq<char>, strict: bool) -> Option<int> {
    match parse_v6_at(s, strict) {
        Some(p) => if p.1 == s.len() {
            Some(p.0)
        } else {
            None
        },
        None => None,
    }
}

/// Parses a prefix length at position `i`: the maximal digit run there,
/// one to `max_digits` digits, with a value of at most `max_val`. This is
/// the prefix grammar of the subnet parser, which accepts leading zeros.
pub open spec fn parse_prefix_len(s: Seq<char>, i: int, max_digits: int, max_val: int) -> Option<
    (int, int),
> {
    let n = digit_run_len(s, i);
    if 1 <= n <= max_digits {
        let v = dec_val(s.subrange(i, i + n));
        if 0 <= v <= max_val {
            Some((v, i + n))
        } else {
            None
        }
    } else {
        None
    }
}

/// The IPv4 network that the whole of `s` denotes under the subnet
/// parser's grammar: a lenient dotted quad, '/', and a prefix length of
/// one or two digits and value at most 32. Yields the address value as
/// given (host bits kept) and the prefix length.
pub open spec fn spec_parse_v4net(s: Seq<char>) -> Option<(int, int)> {
    match parse_v4_at(s, 0, false) {
        Some(p) => if p.1 < s.len() && s[p.1] == '/' {
            match parse_prefix_len(s, p.1 + 1, 2, 32) {
                Some(q) => if q.1 == s.len() {
                    Some((p.0, q.0))
                } else {
                    None
                },
                None => None,
            }
        } else {
            None
        },
        None => None,
    }
}

/// The IPv6 network that the whole of `s` denotes under the subnet
/// parser's grammar: a lenient IPv6 literal, '/', and a prefix length of
/// one to three digits and value at most 128. Yields the address value as
/// given (host bits kept) and the prefix length.
pub open spec fn spec_parse_v6net(s: Seq<char>) -> Option<(int, int)> {
    match parse_v6_at(s, false) {
        Some(p) => if p.1 < s.len() && s[p.1] == '/' {
            match parse_prefix_len(s, p.1 + 1, 3, 128) {
                Some(q) => if q.1 == s.len() {
                    Some((p.0, q.0))
                } else {
                    None
                },
                None => None,
            }
        } else {
            None
        },
        None => None,
    }
}

/// The IP address that the whole of `s` denotes, if any: a dotted quad, or
/// an IPv6 literal, under the strict address grammar.
pub open spec fn spec_parse_ip(s: Seq<char>) -> Option<IpAddress> {
    match spec_parse_v4(s) {
        Some(v) => Some(IpAddress::V4(v as u32)),
        None => match spec_parse_v6(s, true) {
            Some(v) => Some(IpAddress::V6(v as u128)),
            None => None,
        },
    }
}

/// The decimal text of `n` consists of digits, denotes `n`, has no leading
/// zero, and is as long as `n` is wide.
proof fn lemma_dec_text_digits(n: u32)
    ensures
        dec_text(n).len() >= 1,
        forall|k: int| 0 <= k < dec_text(n).len() ==> is_dec_digit(dec_text(n)[k]),
        dec_val(dec_text(n)) == n,
        n < 10 ==> dec_text(n).len() == 1,
        n >= 10 ==> dec_text(n).len() >= 2,
        n < 100 ==> dec_text(n).len() <= 2,
        n < 1000 ==> dec_text(n).len() <= 3,
        n > 0 ==> dec_text(n)[0] != '0',
        n == 0 ==> dec_text(n)[0] == '0',
    decreases n,
{
    if n < 10 {
        assert(dec_text(n) =~= seq![digit_char(n as u8)]);
        assert(is_dec_digit(digit_char(n as u8)));
        assert(dec_val(dec_text(n)) == n) by {
            let s1 = seq![digit_char(n as u8)];
            assert(s1.drop_last() =~= Seq::<char>::empty());
            assert(dec_val(Seq::<char>::empty()) == 0);
            assert(dec_val(s1) == dec_digit_val(digit_char(n as u8)));
        }
    } else {
        lemma_dec_text_digits(n / 10);
        let pre = dec_text(n / 10);
        let d = digit_char((n % 10) as u8);
        assert(dec_text(n) == pre.push(d));
        assert(is_dec_digit(d));
        assert(dec_text(n).drop_last() =~= pre);
        assert(dec_val(dec_text(n)) == dec_val(pre) * 10 + dec_digit_val(d));
        assert(dec_text(n)[0] == pre[0]);
    }
}

/// A run of exactly `n` digits at position `i`, delimited by the end of
/// the text or a non-digit, is the maximal digit run there.
proof fn lemma_digit_run_of_digits(s: Seq<char>, i: int, n: int)
    requires
        0 <= i,
        n >= 0,
        i + n <= s.len(),
        forall|k: int| i <= k < i + n ==> is_dec_digit(s[k]),
        i + n == s.len() || !is_dec_digit(s[i + n]),
    ensures
        digit_run_len(s, i) == n,
    decreases n,
{
    if n > 0 {
        lemma_digit_run_of_digits(s, i + 1, n - 1);
    }
}

/// At a position where the text holds exactly the decimal text of an
/// octet, delimited by the end of the text or a non-digit, the octet
/// parser reads exactly that octet.
proof fn lemma_parse_octet_of_text(s: Seq<char>, i: int, o: u32)
    requires
        o <= 255,
        0 <= i,
        i + dec_text(o).len() <= s.len(),
        s.subrange(i, i + dec_text(o).len() as int) == dec_text(o),
        i + dec_text(o).len() == s.len() || !is_dec_digit(s[i + dec_text(o).len()]),
    ensures
        parse_octet_at(s, i, true) == Some((o as int, i + dec_text(o).len() as int)),
{
    lemma_dec_text_digits(o);
    let n = dec_text(o).len() as int;
    assert forall|k: int| i <= k < i + n implies is_dec_digit(s[k]) by {
        assert(s[k] == s.subrange(i, i + n)[k - i]);
    }
    lemma_digit_run_of_digits(s, i, n);
    assert(s[i] == s.subrange(i, i + n)[0]);
    if n > 1 {
        assert(o >= 10);
        assert(s[i] != '0');
    }
    assert(dec_val(s.subrange(i, i + n)) == o);
}

/// Parsing the canonical text of an IPv4 address yields exactly that
/// address: the address grammar and the formatter agree.
pub proof fn lemma_v4_text_parses(a: u32)
    ensures
        spec_parse_v4(v4_text(a)) == Some(a as int),
{
    let o1 = a / 0x1000000;
    let o2 = (a / 0x10000) % 256;
    let o3 = (a / 256) % 256;
    let o4 = a % 256;
    lemma_dec_text_digits(o1);
    lemma_dec_text_digits(o2);
    lemma_dec_text_digits(o3);
    lemma_dec_text_digits(o4);
    let d1 = dec_text(o1);
    let d2 = dec_text(o2);
    let d3 = dec_text(o3);
    let d4 = dec_text(o4);
    let t = v4_text(a);
    let l1 = d1.len() as int;
    let l2 = d2.len() as int;
    let l3 = d3.len() as int;
    let l4 = d4.len() as int;
    let q1 = l1;
    let q2 = q1 + 1 + l2;
    let q3 = q2 + 1 + l3;
    let q4 = q3 + 1 + l4;
    assert(t.len() == q4);
    assert(!is_dec_digit('.'));
    assert(t.subrange(0, q1) =~= d1);
    assert(t[q1] == '.');
    lemma_parse_octet_of_text(t, 0, o1);
    assert(t.subrange(q1 + 1, q2) =~= d2);
    assert(t[q2] == '.');
    lemma_parse_octet_of_text(t, q1 + 1, o2);
    assert(t.subrange(q2 + 1, q3) =~= d3);
    assert(t[q3] == '.');
    lemma_parse_octet_of_text(t, q2 + 1, o3);
    assert(t.subrange(q3 + 1, q4) =~= d4);
    lemma_parse_octet_of_text(t, q3 + 1, o4);
    assert(parse_v4_at(t, 0, true) == Some(
        ((o1 * 0x1000000 + o2 * 0x10000 + o3 * 256 + o4) as int, q4),
    ));
    assert(o1 * 0x1000000 + o2 * 0x10000 + o3 * 256 + o4 == a) by (bit_vector)
        requires
            o1 == a / 0x1000000 && o2 == (a / 0x10000) % 256 && o3 == (a / 256) % 256 && o4 == a
                % 256,
    ;
}

/// The eight groups that an IPv6 address formats as reassemble, through
/// the parser's value function, to exactly that address: the two
/// decompositions agree.
pub proof fn lemma_v6_groups_value(a: u128)
    ensures
        v6_value(crate::addr::v6_groups(a)) == a,
{
    let gs = crate::addr::v6_groups(a);
    assert(gs[0] == ((a / 0x10000000000000000000000000000) % 0x10000) as u16);
    assert(gs[1] == ((a / 0x1000000000000000000000000) % 0x10000) as u16);
    assert(gs[2] == ((a / 0x100000000000000000000) % 0x10000) as u16);
    assert(gs[3] == ((a / 0x10000000000000000) % 0x10000) as u16);
    assert(gs[4] == ((a / 0x1000000000000) % 0x10000) as u16);
    assert(gs[5] == ((a / 0x100000000) % 0x10000) as u16);
    assert(gs[6] == ((a / 0x10000) % 0x10000) as u16);
    assert(gs[7] == (a % 0x10000) as u16);
    assert(((a / 0x10000000000000000000000000000) % 0x10000) * 0x10000000000000000000000000000 + (
    (a / 0x1000000000000000000000000) % 0x10000) * 0x1000000000000000000000000 + ((a
        / 0x100000000000000000000) % 0x10000) * 0x100000000000000000000 + ((a
        / 0x10000000000000000) % 0x10000) * 0x10000000000000000 + ((a / 0x1000000000000) % 0x10000)
        * 0x1000000000000 + ((a / 0x100000000) % 0x10000) * 0x100000000 + ((a / 0x10000) % 0x10000)
        * 0x10000 + (a % 0x10000) == a) by (bit_vector);
}

/// The exec pair `r` denotes the spec pair `m`.
pub open spec fn pos_corresponds(r: Option<(u32, usize)>, m: Option<(int, int)>) -> bool {
    match r {
        Some(p) => m == Some((p.0 as int, p.1 as int)),
        None => m is None,
    }
}

/// The value of a run of decimal digits is bounded by its length.
proof fn lemma_dec_val_small(s: Seq<char>)
    requires
        forall|k: int| 0 <= k < s.len() ==> is_dec_digit(s[k]),
    ensures
        0 <= dec_val(s),
        s.len() <= 1 ==> dec_val(s) <= 9,
        s.len() <= 2 ==> dec_val(s) <= 99,
        s.len() <= 3 ==> dec_val(s) <= 999,
    decreases s.len(),
{
    if s.len() > 0 {
        lemma_dec_val_small(s.drop_last());
    }
}

/// The value of a run of hexadecimal digits is bounded by its length.
proof fn lemma_hex_val_small(s: Seq<char>)
    requires
        forall|k: int| 0 <= k < s.len() ==> is_hex_digit(s[k]),
    ensures
        0 <= hex_val(s),
        s.len() <= 1 ==> hex_val(s) <= 0xf,
        s.len() <= 2 ==> hex_val(s) <= 0xff,
        s.len() <= 3 ==> hex_val(s) <= 0xfff,
        s.len() <= 4 ==> hex_val(s) <= 0xffff,
    decreases s.len(),
{
    if s.len() > 0 {
        lemma_hex_val_small(s.drop_last());
    }
}

/// The length of the maximal decimal digit run at position `i`.
fn digit_run(s: &str, i: usize) -> (r: usize)
    requires
        i <= s@.len(),
    ensures
        r as int == digit_run_len(s@, i as int),
        i + r <= s@.len(),
        forall|k: int| i <= k < i + r ==> is_dec_digit(s@[k]),
    decreases s@.len() - i,
{
    if i < s.unicode_len() {
        let c = s.get_char(i);
        let cu = c as u32;
        if 48 <= cu && cu <= 57 {
            let rest = digit_run(s, i + 1);
            1 + rest
        } else {
            0
        }
    } else {
        0
    }
}

/// The length of the maximal hexadecimal digit run at position `i`.
fn hex_run(s: &str, i: usize) -> (r: usize)
    requires
        i <= s@.len(),
    ensures
        r as int == hex_run_len(s@, i as int),
        i + r <= s@.len(),
        forall|k: int| i <= k < i + r ==> is_hex_digit(s@[k]),
    decreases s@.len() - i,
{
    if i < s.unicode_len() {
        let c = s.get_char(i);
        let cu = c as u32;
        if (48 <= cu && cu <= 57) || (97 <= cu && cu <= 102) || (65 <= cu && cu <= 70) {
            let rest = hex_run(s, i + 1);
            1 + rest
        } else {
            0
        }
    } else {
        0
    }
}

/// Scans one octet at position `i`.
fn scan_octet(s: &str, i: usize, strict: bool) -> (r: Option<(u32, usize)>)
    requires
        i <= s@.len(),
    ensures
        pos_corresponds(r, parse_octet_at(s@, i as int, strict)),
        r matches Some(p) ==> i < p.1 <= s@.len() && p.0 <= 255,
{
    let slen = s.unicode_len();
    let n = digit_run(s, i);
    if n < 1 || n > 3 {
        return None;
    }
    if strict && n > 1 && s.get_char(i) == '0' {
        return None;
    }
    let end: usize = i + n;
    let mut v: u32 = 0;
    let mut j: usize = i;
    while j < end
        invariant
            end == i + n,
            i <= j <= i + n <= s@.len(),
            n as int == digit_run_len(s@, i as int),
            n <= 3,
            forall|k: int| i <= k < i + n ==> is_dec_digit(s@[k]),
            v as int == dec_val(s@.subrange(i as int, j as int)),
            v <= 999,
        decreases i + n - j,
    {
        proof {
            let sub = s@.subrange(i as int, j as int);
            assert(forall|k: int| 0 <= k < sub.len() ==> is_dec_digit(sub[k]));
            lemma_dec_val_small(sub);
        }
        let c = s.get_char(j);
        let d: u32 = c as u32 - 48;
        v = v * 10 + d;
        proof {
            let sub1 = s@.subrange(i as int, j + 1);
            assert(sub1.drop_last() =~= s@.subrange(i as int, j as int));
            assert(sub1.last() == s@[j as int]);
            assert(v as int == dec_val(sub1));
            assert(forall|k: int| 0 <= k < sub1.len() ==> is_dec_digit(sub1[k]));
            lemma_dec_val_small(sub1);
        }
        j = j + 1;
    }
    if v <= 255 {
        Some((v, i + n))
    } else {
        None
    }
}

/// Scans '.' followed by an octet at position `i`.
fn scan_dot_octet(s: &str, i: usize, strict: bool) -> (r: Option<(u32, usize)>)
    requires
        i <= s@.len(),
    ensures
        pos_corresponds(r, parse_dot_octet_at(s@, i as int, strict)),
        r matches Some(p) ==> i < p.1 <= s@.len() && p.0 <= 255,
{
    if i < s.unicode_len() && s.get_char(i) == '.' {
        scan_octet(s, i + 1, strict)
    } else {
        None
    }
}

/// Scans a dotted quad at position `i`.
fn scan_v4_at(s: &str, i: usize, strict: bool) -> (r: Option<(u32, usize)>)
    requires
        i <= s@.len(),
    ensures
        pos_corresponds(r, parse_v4_at(s@, i as int, strict)),
        r matches Some(p) ==> i < p.1 <= s@.len(),
{
    match scan_octet(s, i, strict) {
        None => None,
        Some(p1) => match scan_dot_octet(s, p1.1, strict) {
            None => None,
            Some(p2) => match scan_dot_octet(s, p2.1, strict) {
                None => None,
                Some(p3) => match scan_dot_octet(s, p3.1, strict) {
                    None => None,
                    Some(p4) => Some(
                        (p1.0 * 0x1000000 + p2.0 * 0x10000 + p3.0 * 256 + p4.0, p4.1),
                    ),
                },
            },
        },
    }
}

/// Scans one 16-bit group at position `i`.
fn scan_group(s: &str, i: usize) -> (r: Option<(u32, usize)>)
    requires
        i <= s@.len(),
    ensures
        pos_corresponds(r, parse_group_at(s@, i as int)),
        r matches Some(p) ==> i < p.1 <= s@.len() && p.0 <= 0xffff,
{
    let slen = s.unicode_len();
    let n = hex_run(s, i);
    if n < 1 || n > 4 {
        return None;
    }
    let end: usize = i + n;
    let mut v: u32 = 0;
    let mut j: usize = i;
    while j < end
        invariant
            end == i + n,
            i <= j <= i + n <= s@.len(),
            n as int == hex_run_len(s@, i as int),
            n <= 4,
            forall|k: int| i <= k < i + n ==> is_hex_digit(s@[k]),
            v as int == hex_val(s@.subrange(i as int, j as int)),
            v <= 0xffff,
        decreases i + n - j,
    {
        proof {
            let sub = s@.subrange(i as int, j as int);
            assert(forall|k: int| 0 <= k < sub.len() ==> is_hex_digit(sub[k]));
            lemma_hex_val_small(sub);
        }
        let c = s.get_char(j);
        let cu = c as u32;
        let d: u32 = if 48 <= cu && cu <= 57 {
            cu - 48
        } else if 97 <= cu && cu <= 102 {
            cu - 87
        } else {
            cu - 55
        };
        v = v * 16 + d;
        proof {
            let sub1 = s@.subrange(i as int, j + 1);
            assert(sub1.drop_last() =~= s@.subrange(i as int, j as int));
            assert(sub1.last() == s@[j as int]);
            assert(v as int == hex_val(sub1));
            assert(forall|k: int| 0 <= k < sub1.len() ==> is_hex_digit(sub1[k]));
            lemma_hex_val_small(sub1);
        }
        j = j + 1;
    }
    Some((v, end))
}

/// Reads up to `limit` colon-separated groups at position `i`, under the
/// strict address grammar.
fn read_groups_exec(s: &str, i: usize, limit: usize, first: bool) -> (r: (Vec<u16>, usize, bool))
    requires
        i <= s@.len(),
        limit <= 8,
    ensures
        ({
            let m = read_groups(s@, i as int, limit as int, first, true);
            r.0@ == m.0 && r.1 as int == m.1 && r.2 == m.2
        }),
        r.0@.len() <= limit,
        i <= r.1 <= s@.len(),
    decreases limit,
{
    if limit == 0 {
        return (Vec::new(), i, false);
    }
    let j: usize;
    if first {
        j = i;
    } else {
        if i < s.unicode_len() && s.get_char(i) == ':' {
            j = i + 1;
        } else {
            return (Vec::new(), i, false);
        }
    }
    if limit >= 2 {
        let quad = scan_v4_at(s, j, true);
        if let Some(p) = quad {
            let hi: u16 = (p.0 / 0x10000) as u16;
            let lo: u16 = (p.0 % 0x10000) as u16;
            let mut v: Vec<u16> = Vec::new();
            v.push(hi);
            v.push(lo);
            proof {
                let m = read_groups(s@, i as int, limit as int, first, true);
                assert(v@ =~= m.0);
            }
            return (v, p.1, true);
        }
    }
    match scan_group(s, j) {
        Some(g) => {
            let rest = read_groups_exec(s, g.1, limit - 1, false);
            let mut v: Vec<u16> = Vec::new();
            v.push(g.0 as u16);
            let mut rv = rest.0;
            v.append(&mut rv);
            proof {
                let m = read_groups(s@, i as int, limit as int, first, true);
                assert(v@ =~= m.0);
            }
            (v, rest.1, rest.2)
        },
        None => (Vec::new(), i, false),
    }
}

/// The 128-bit value of eight 16-bit groups.
fn groups_value(g: &Vec<u16>) -> (r: u128)
    requires
        g@.len() == 8,
    ensures
        r as int == v6_value(g@),
{
    (g[0] as u128) * 0x10000000000000000000000000000 + (g[1] as u128) * 0x1000000000000000000000000
        + (g[2] as u128) * 0x100000000000000000000 + (g[3] as u128) * 0x10000000000000000 + (
    g[4] as u128) * 0x1000000000000 + (g[5] as u128) * 0x100000000 + (g[6] as u128) * 0x10000 + (
    g[7] as u128)
}

/// The IPv6 address that the whole of `s` denotes, if any, under the
/// strict address grammar.
pub fn parse_v6(s: &str) -> (r: Option<u128>)
    ensures
        (match spec_parse_v6(s@, true) {
            Some(v) => r == Some(v as u128),
            None => r is None,
        }),
{
    let slen = s.unicode_len();
    let head = read_groups_exec(s, 0, 8, true);
    if head.0.len() == 8 {
        if head.1 == slen {
            Some(groups_value(&head.0))
        } else {
            None
        }
    } else if head.2 {
        None
    } else if head.1 < slen && head.1 + 1 < slen && s.get_char(head.1) == ':' && s.get_char(
        head.1 + 1,
    ) == ':' {
        let limit: usize = 7 - head.0.len();
        let tail = read_groups_exec(s, head.1 + 2, limit, true);
        if tail.1 == slen {
            let mut full = head.0;
            let zeros: usize = 8 - full.len() - tail.0.len();
            let mut z: usize = 0;
            while z < zeros
                invariant
                    z <= zeros,
                    full@ =~= read_groups(s@, 0, 8, true, true).0.add(zero_groups(z as int)),
                decreases zeros - z,
            {
                full.push(0);
                proof {
                    assert(zero_groups(z + 1) =~= zero_groups(z as int).push(0u16));
                }
                z = z + 1;
            }
            let mut tv = tail.0;
            full.append(&mut tv);
            proof {
                let h = read_groups(s@, 0, 8, true, true);
                let t = read_groups(s@, h.1 + 2, limit as int, true, true);
                assert(full@ =~= h.0.add(zero_groups(8 - h.0.len() - t.0.len())).add(t.0));
                assert(full@.len() == 8);
            }
            Some(groups_value(&full))
        } else {
            None
        }
    } else {
        None
    }
}

/// The IP address that the whole of `s` denotes, if any: a dotted quad
/// first, else an IPv6 literal.
pub fn parse_ip(s: &str) -> (r: Option<IpAddress>)
    ensures
        r == spec_parse_ip(s@),
{
    match parse_v4(s) {
        Some(v) => Some(IpAddress::V4(v)),
        None => match parse_v6(s) {
            Some(v) => Some(IpAddress::V6(v)),
            None => None,
        },
    }
}

/// The IPv4 address that the whole of `s` denotes, if any.
pub fn parse_v4(s: &str) -> (r: Option<u32>)
    ensures
        (match spec_parse_v4(s@) {
            Some(v) => r == Some(v as u32),
            None => r is None,
        }),
{
    match scan_v4_at(s, 0, true) {
        Some(p) => if p.1 == s.unicode_len() {
            Some(p.0)
        } else {
            None
        },
        None => None,
    }
}

} // verus!
