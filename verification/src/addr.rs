//! The address model: an IP address as a plain numeric value, one variant
//! per family. An IPv4 address is its 32-bit value, an IPv6 address its
//! 128-bit value, both in network order.

use vstd::prelude::*;

verus! {

/// The characters that a sequence of ASCII bytes denotes.
pub open spec fn ascii_chars(bs: Seq<u8>) -> Seq<char> {
    bs.map_values(|b: u8| b as char)
}

/// All bytes are ASCII.
pub open spec fn all_ascii(bs: Seq<u8>) -> bool {
    forall|i: int| 0 <= i < bs.len() ==> bs[i] < 128
}

/// The character of the digit `d`, lowercase for the hex digits above 9.
pub open spec fn digit_char(d: u8) -> char
    recommends
        d < 16,
{
    if d < 10 {
        ((48 + d) as u8) as char
    } else {
        ((87 + d) as u8) as char
    }
}

/// The decimal text of `n`, without leading zeros.
pub open spec fn dec_text(n: u32) -> Seq<char>
    decreases n,
{
    if n < 10 {
        seq![digit_char(n as u8)]
    } else {
        dec_text(n / 10).push(digit_char((n % 10) as u8))
    }
}

/// The lowercase hexadecimal text of `n`, without leading zeros.
pub open spec fn hex_text(n: u16) -> Seq<char>
    decreases n,
{
    if n < 16 {
        seq![digit_char(n as u8)]
    } else {
        hex_text(n / 16).push(digit_char((n % 16) as u8))
    }
}

/// The dotted-quad text of the IPv4 address `a`.
pub open spec fn v4_text(a: u32) -> Seq<char> {
    dec_text(a / 0x1000000) + seq!['.'] + dec_text((a / 0x10000) % 256) + seq!['.'] + dec_text(
        (a / 256) % 256,
    ) + seq!['.'] + dec_text(a % 256)
}

/// The divisor that brings group `i` (most significant first) of an IPv6
/// address into the low 16 bits.
pub open spec fn v6_group_div(i: int) -> u128
    recommends
        0 <= i < 8,
{
    if i == 0 {
        0x10000000000000000000000000000
    } else if i == 1 {
        0x1000000000000000000000000
    } else if i == 2 {
        0x100000000000000000000
    } else if i == 3 {
        0x10000000000000000
    } else if i == 4 {
        0x1000000000000
    } else if i == 5 {
        0x100000000
    } else if i == 6 {
        0x10000
    } else {
        1
    }
}

/// The eight 16-bit groups of the IPv6 address `a`, most significant first.
pub open spec fn v6_groups(a: u128) -> Seq<u16> {
    Seq::new(8, |i: int| ((a / v6_group_div(i)) % 0x10000) as u16)
}

/// An IPv4-mapped IPv6 address: the first five groups zero, the sixth all
/// ones. Its text embeds the dotted quad of the low 32 bits.
pub open spec fn ipv4_mapped(gs: Seq<u16>) -> bool {
    &&& gs.len() == 8
    &&& gs[0] == 0
    &&& gs[1] == 0
    &&& gs[2] == 0
    &&& gs[3] == 0
    &&& gs[4] == 0
    &&& gs[5] == 0xffff
}

/// One step of the scan for the longest run of zero groups: `cs`/`cl` are
/// the start and length of the run under the cursor, `bs`/`bl` the best run
/// seen so far. The earliest of the longest runs wins, as only a strictly
/// longer run replaces the best.
pub open spec fn zero_run_scan(gs: Seq<u16>, i: int, cs: int, cl: int, bs: int, bl: int) -> (
    int,
    int,
)
    decreases gs.len() - i,
{
    if i < 0 || i >= gs.len() {
        (bs, bl)
    } else if gs[i] == 0 {
        let ncs = if cl == 0 {
            i
        } else {
            cs
        };
        let ncl = cl + 1;
        if ncl > bl {
            zero_run_scan(gs, i + 1, ncs, ncl, ncs, ncl)
        } else {
            zero_run_scan(gs, i + 1, ncs, ncl, bs, bl)
        }
    } else {
        zero_run_scan(gs, i + 1, 0, 0, bs, bl)
    }
}

/// The start and length of the run of zero groups that the text of an IPv6
/// address compresses: the earliest longest one.
pub open spec fn best_zero_run(gs: Seq<u16>) -> (int, int) {
    zero_run_scan(gs, 0, 0, 0, 0, 0)
}

/// The ':'-separated lowercase hex text of the groups `gs`.
pub open spec fn groups_text(gs: Seq<u16>) -> Seq<char>
    decreases gs.len(),
{
    if gs.len() == 0 {
        Seq::empty()
    } else if gs.len() == 1 {
        hex_text(gs[0])
    } else {
        groups_text(gs.drop_last()) + seq![':'] + hex_text(gs.last())
    }
}

/// The canonical text of the IPv6 address `a`: lowercase hex groups without
/// leading zeros, the earliest longest run of two or more zero groups
/// compressed to "::", and an IPv4-mapped address shown as "::ffff:" with
/// the embedded dotted quad.
pub open spec fn v6_text(a: u128) -> Seq<char> {
    let gs = v6_groups(a);
    if ipv4_mapped(gs) {
        seq![':', ':', 'f', 'f', 'f', 'f', ':'] + v4_text((a % 0x100000000) as u32)
    } else {
        let (bs, bl) = best_zero_run(gs);
        if bl >= 2 {
            groups_text(gs.take(bs)) + seq![':', ':'] + groups_text(gs.skip(bs + bl))
        } else {
            groups_text(gs)
        }
    }
}

/// One IP address, IPv4 or IPv6.
#[derive(Debug, Clone, Copy, PartialEq, Eq, Structural)]
pub enum IpAddress {
    V4(u32),
    V6(u128),
}

impl IpAddress {
    /// True exactly on IPv4 addresses.
    pub fn is_ipv4(&self) -> (r: bool)
        ensures
            r == (*self is V4),
    {
        match self {
            IpAddress::V4(_) => true,
            IpAddress::V6(_) => false,
        }
    }

    /// True exactly on IPv6 addresses.
    pub fn is_ipv6(&self) -> (r: bool)
        ensures
            r == (*self is V6),
    {
        match self {
            IpAddress::V4(_) => false,
            IpAddress::V6(_) => true,
        }
    }
}

/// Relies on String::from_utf8: a sequence of ASCII bytes decodes to the
/// string whose characters have the same code points.
#[verifier::external_body]
fn ascii_to_string(bytes: Vec<u8>) -> (r: String)
    requires
        all_ascii(bytes@),
    ensures
        r@ == ascii_chars(bytes@),
{
    match String::from_utf8(bytes) {
        Ok(s) => s,
        Err(_) => String::new(),
    }
}

/// Appends the decimal text of `n`.
fn push_dec(out: &mut Vec<u8>, n: u32)
    ensures
        ascii_chars(final(out)@) == ascii_chars(old(out)@) + dec_text(n),
        all_ascii(old(out)@) ==> all_ascii(final(out)@),
    decreases n,
{
    if n < 10 {
        out.push(48 + (n as u8));
        proof {
            assert((48 + n) as u8 as char == digit_char(n as u8));
            assert(dec_text(n) =~= seq![digit_char(n as u8)]);
            assert(ascii_chars(out@) =~= ascii_chars(old(out)@) + dec_text(n));
        }
    } else {
        push_dec(out, n / 10);
        let ghost prev = out@;
        out.push(48 + ((n % 10) as u8));
        proof {
            assert((48 + (n % 10)) as u8 as char == digit_char((n % 10) as u8));
            assert(dec_text(n) == dec_text(n / 10).push(digit_char((n % 10) as u8)));
            assert(ascii_chars(out@) =~= ascii_chars(prev).push(digit_char((n % 10) as u8)));
            assert(ascii_chars(out@) =~= ascii_chars(old(out)@) + dec_text(n));
        }
    }
}

/// Appends one ASCII byte.
fn push_byte(out: &mut Vec<u8>, b: u8)
    requires
        b < 128,
    ensures
        ascii_chars(final(out)@) == ascii_chars(old(out)@).push(b as char),
        all_ascii(old(out)@) ==> all_ascii(final(out)@),
{
    let ghost prev = out@;
    out.push(b);
    proof {
        assert(ascii_chars(out@) =~= ascii_chars(prev).push(b as char));
        if all_ascii(prev) {
            assert forall|i: int| 0 <= i < out@.len() implies out@[i] < 128 by {
                if i < prev.len() {
                    assert(prev[i] < 128);
                }
            }
        }
    }
}

/// Appends the dotted-quad text of the IPv4 address `a`.
fn push_v4(out: &mut Vec<u8>, a: u32)
    ensures
        ascii_chars(final(out)@) == ascii_chars(old(out)@) + v4_text(a),
        all_ascii(old(out)@) ==> all_ascii(final(out)@),
{
    let ghost base = ascii_chars(out@);
    push_dec(out, a / 0x1000000);
    push_byte(out, 46);
    proof {
        assert(ascii_chars(out@) =~= base + (dec_text(a / 0x1000000) + seq!['.']));
    }
    push_dec(out, (a / 0x10000) % 256);
    push_byte(out, 46);
    proof {
        assert(ascii_chars(out@) =~= base + (dec_text(a / 0x1000000) + seq!['.'] + dec_text(
            (a / 0x10000) % 256,
        ) + seq!['.']));
    }
    push_dec(out, (a / 256) % 256);
    push_byte(out, 46);
    proof {
        assert(ascii_chars(out@) =~= base + (dec_text(a / 0x1000000) + seq!['.'] + dec_text(
            (a / 0x10000) % 256,
        ) + seq!['.'] + dec_text((a / 256) % 256) + seq!['.']));
    }
    push_dec(out, a % 256);
    proof {
        assert(ascii_chars(out@) =~= base + v4_text(a));
    }
}

/// The dotted-quad string of the IPv4 address `a`.
pub fn v4_string(a: u32) -> (r: String)
    ensures
        r@ == v4_text(a),
{
    let mut out: Vec<u8> = Vec::new();
    proof {
        assert(ascii_chars(out@) =~= Seq::<char>::empty());
        assert(all_ascii(out@));
    }
    push_v4(&mut out, a);
    proof {
        assert(ascii_chars(out@) =~= v4_text(a));
    }
    ascii_to_string(out)
}

/// Appends the lowercase hex text of `n`.
fn push_hex(out: &mut Vec<u8>, n: u16)
    ensures
        ascii_chars(final(out)@) == ascii_chars(old(out)@) + hex_text(n),
        all_ascii(old(out)@) ==> all_ascii(final(out)@),
    decreases n,
{
    if n < 16 {
        let d: u8 = n as u8;
        let b: u8 = if d < 10 {
            48 + d
        } else {
            87 + d
        };
        push_byte(out, b);
        proof {
            assert(b as char == digit_char(n as u8));
            assert(hex_text(n) =~= seq![digit_char(n as u8)]);
            assert(ascii_chars(out@) =~= ascii_chars(old(out)@) + hex_text(n));
        }
    } else {
        push_hex(out, n / 16);
        let d: u8 = (n % 16) as u8;
        let b: u8 = if d < 10 {
            48 + d
        } else {
            87 + d
        };
        push_byte(out, b);
        proof {
            assert(b as char == digit_char((n % 16) as u8));
            assert(hex_text(n) == hex_text(n / 16).push(digit_char((n % 16) as u8)));
            assert(ascii_chars(out@) =~= ascii_chars(old(out)@) + hex_text(n));
        }
    }
}

/// Appends the ':'-separated hex text of `groups[from..to]`.
fn push_groups(out: &mut Vec<u8>, groups: &Vec<u16>, from: usize, to: usize)
    requires
        from <= to <= groups@.len(),
    ensures
        ascii_chars(final(out)@) == ascii_chars(old(out)@) + groups_text(
            groups@.subrange(from as int, to as int),
        ),
        all_ascii(old(out)@) ==> all_ascii(final(out)@),
{
    let ghost base = ascii_chars(out@);
    let mut j: usize = from;
    while j < to
        invariant
            from <= j <= to <= groups@.len(),
            ascii_chars(out@) == base + groups_text(groups@.subrange(from as int, j as int)),
            all_ascii(old(out)@) ==> all_ascii(out@),
            base == ascii_chars(old(out)@),
        decreases to - j,
    {
        if j > from {
            push_byte(out, 58);
        }
        push_hex(out, groups[j]);
        proof {
            let sub = groups@.subrange(from as int, j + 1);
            assert(sub.last() == groups@[j as int]);
            if j == from {
                assert(groups_text(sub) == hex_text(groups@[j as int]));
                assert(ascii_chars(out@) =~= base + groups_text(sub));
            } else {
                assert(sub.drop_last() =~= groups@.subrange(from as int, j as int));
                assert(groups_text(sub) == groups_text(sub.drop_last()) + seq![':'] + hex_text(
                    groups@[j as int],
                ));
                assert(ascii_chars(out@) =~= base + groups_text(sub));
            }
        }
        j = j + 1;
    }
    proof {
        if from == to {
            assert(groups_text(groups@.subrange(from as int, to as int)) =~= Seq::<char>::empty());
            assert(ascii_chars(out@) =~= base + groups_text(
                groups@.subrange(from as int, to as int),
            ));
        }
    }
}

/// The canonical string of the IPv6 address `a`.
pub fn v6_string(a: u128) -> (r: String)
    ensures
        r@ == v6_text(a),
{
    let mut g: Vec<u16> = Vec::new();
    g.push(((a / 0x10000000000000000000000000000) % 0x10000) as u16);
    g.push(((a / 0x1000000000000000000000000) % 0x10000) as u16);
    g.push(((a / 0x100000000000000000000) % 0x10000) as u16);
    g.push(((a / 0x10000000000000000) % 0x10000) as u16);
    g.push(((a / 0x1000000000000) % 0x10000) as u16);
    g.push(((a / 0x100000000) % 0x10000) as u16);
    g.push(((a / 0x10000) % 0x10000) as u16);
    g.push((a % 0x10000) as u16);
    proof {
        assert(g@.len() == 8);
        assert(g@[0] == v6_groups(a)[0]);
        assert(g@[1] == v6_groups(a)[1]);
        assert(g@[2] == v6_groups(a)[2]);
        assert(g@[3] == v6_groups(a)[3]);
        assert(g@[4] == v6_groups(a)[4]);
        assert(g@[5] == v6_groups(a)[5]);
        assert(g@[6] == v6_groups(a)[6]);
        assert(g@[7] == v6_groups(a)[7]);
        assert(g@ =~= v6_groups(a));
    }
    let mut out: Vec<u8> = Vec::new();
    proof {
        assert(ascii_chars(out@) =~= Seq::<char>::empty());
        assert(all_ascii(out@));
    }
    if g[0] == 0 && g[1] == 0 && g[2] == 0 && g[3] == 0 && g[4] == 0 && g[5] == 0xffff {
        push_byte(&mut out, 58);
        push_byte(&mut out, 58);
        push_byte(&mut out, 102);
        push_byte(&mut out, 102);
        push_byte(&mut out, 102);
        push_byte(&mut out, 102);
        push_byte(&mut out, 58);
        proof {
            assert(ascii_chars(out@) =~= seq![':', ':', 'f', 'f', 'f', 'f', ':']);
        }
        push_v4(&mut out, (a % 0x100000000) as u32);
        proof {
            assert(ipv4_mapped(v6_groups(a)));
            assert(ascii_chars(out@) =~= v6_text(a));
        }
        return ascii_to_string(out);
    }
    let mut cs: usize = 0;
    let mut cl: usize = 0;
    let mut bs: usize = 0;
    let mut bl: usize = 0;
    let mut i: usize = 0;
    while i < 8
        invariant
            i <= 8,
            g@ =~= v6_groups(a),
            cl <= i,
            cl > 0 ==> cs + cl == i,
            bs + bl <= i,
            best_zero_run(g@) == zero_run_scan(
                g@,
                i as int,
                cs as int,
                cl as int,
                bs as int,
                bl as int,
            ),
        decreases 8 - i,
    {
        let ghost (pcs, pcl, pbs, pbl) = (cs as int, cl as int, bs as int, bl as int);
        if g[i] == 0 {
            if cl == 0 {
                cs = i;
            }
            cl = cl + 1;
            if cl > bl {
                bs = cs;
                bl = cl;
            }
        } else {
            cs = 0;
            cl = 0;
        }
        proof {
            assert(zero_run_scan(g@, i as int, pcs, pcl, pbs, pbl) == zero_run_scan(
                g@,
                i + 1,
                cs as int,
                cl as int,
                bs as int,
                bl as int,
            ));
        }
        i = i + 1;
    }
    proof {
        assert(zero_run_scan(g@, 8, cs as int, cl as int, bs as int, bl as int) == (
            bs as int,
            bl as int,
        ));
        assert(best_zero_run(v6_groups(a)) == (bs as int, bl as int));
    }
    if bl >= 2 {
        push_groups(&mut out, &g, 0, bs);
        push_byte(&mut out, 58);
        push_byte(&mut out, 58);
        proof {
            assert(g@.subrange(0, bs as int) =~= g@.take(bs as int));
            assert(ascii_chars(out@) =~= groups_text(g@.take(bs as int)) + seq![':', ':']);
        }
        push_groups(&mut out, &g, bs + bl, 8);
        proof {
            assert(g@.subrange(bs + bl, 8) =~= g@.skip(bs + bl));
            assert(ascii_chars(out@) =~= v6_text(a));
        }
    } else {
        push_groups(&mut out, &g, 0, 8);
        proof {
            assert(g@.subrange(0, 8) =~= g@);
            assert(ascii_chars(out@) =~= v6_text(a));
        }
    }
    ascii_to_string(out)
}

} // verus!
