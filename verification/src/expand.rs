//! Subnet expansion: a target list may contain CIDR networks beside plain
//! hostnames and address literals. Expansion replaces each network with the
//! literal text of every host address in it, in ascending order, and passes
//! every other string through unchanged. It never fails.
//!
//! The CIDR notation itself is read by the subnet parser of the `ipnet`
//! crate, behind trusted wrappers whose contracts state that parser's
//! grammar exactly; the iteration over the network's addresses and the
//! formatting of each address are verified here.

use vstd::arithmetic::div_mod::{
    lemma_basic_div,
    lemma_div_pos_is_pos,
    lemma_multiply_divide_lt,
    lemma_remainder_lower,
};
use vstd::arithmetic::mul::{
    lemma_mul_basics,
    lemma_mul_inequality,
    lemma_mul_is_commutative,
    lemma_mul_is_distributive_add_other_way,
    lemma_mul_nonnegative,
};
use vstd::arithmetic::power2::{
    lemma2_to64,
    lemma_pow2_adds,
    lemma_pow2_pos,
    lemma_pow2_strictly_increases,
    lemma_pow2_unfold,
    pow2,
};
use vstd::prelude::*;
use crate::addr::{v4_string, v4_text, v6_string, v6_text};
use crate::host::target_views;
use crate::parse::{spec_parse_v4net, spec_parse_v6net};

verus! {

/// The size of an IPv4 network block with prefix length `p`.
pub open spec fn v4_block(p: int) -> int {
    pow2((32 - p) as nat) as int
}

/// The network address of the IPv4 network `(a, p)`: host bits cleared.
pub open spec fn v4_network(a: int, p: int) -> int {
    (a / v4_block(p)) * v4_block(p)
}

/// The broadcast address of the IPv4 network `(a, p)`: host bits set.
pub open spec fn v4_broadcast(a: int, p: int) -> int {
    v4_network(a, p) + v4_block(p) - 1
}

/// The size of an IPv6 network block with prefix length `p`.
pub open spec fn v6_block(p: int) -> int {
    pow2((128 - p) as nat) as int
}

/// The first address of the IPv6 network `(a, p)`.
pub open spec fn v6_network(a: int, p: int) -> int {
    (a / v6_block(p)) * v6_block(p)
}

/// The last address of the IPv6 network `(a, p)`.
pub open spec fn v6_broadcast(a: int, p: int) -> int {
    v6_network(a, p) + v6_block(p) - 1
}

/// The texts that expansion emits for the IPv4 addresses from `first`
/// through `last`, in ascending order: every address but the unspecified
/// one and the all-ones broadcast address.
pub open spec fn v4_texts_range(first: int, last: int) -> Seq<Seq<char>>
    decreases last - first + 1,
{
    if first > last {
        Seq::empty()
    } else {
        let rest = v4_texts_range(first, last - 1);
        if last != 0 && last != 0xffffffff {
            rest.push(v4_text(last as u32))
        } else {
            rest
        }
    }
}

/// The texts that expansion emits for the IPv6 addresses from `first`
/// through `last`, in ascending order: every address but the unspecified
/// one. IPv6 has no broadcast address, so none is excluded.
pub open spec fn v6_texts_range(first: int, last: int) -> Seq<Seq<char>>
    decreases last - first + 1,
{
    if first > last {
        Seq::empty()
    } else {
        let rest = v6_texts_range(first, last - 1);
        if last != 0 {
            rest.push(v6_text(last as u128))
        } else {
            rest
        }
    }
}

/// The texts that expansion emits for the IPv4 network `(a, p)`: the whole
/// block in ascending order, without the network and broadcast addresses
/// when the prefix is shorter than 31 bits (for a /31 or /32 every address
/// is a host address), and never the unspecified or all-ones address.
pub open spec fn v4_host_texts(a: int, p: int) -> Seq<Seq<char>> {
    if p < 31 {
        v4_texts_range(v4_network(a, p) + 1, v4_broadcast(a, p) - 1)
    } else {
        v4_texts_range(v4_network(a, p), v4_broadcast(a, p))
    }
}

/// The texts that expansion emits for the IPv6 network `(a, p)`: the whole
/// block in ascending order, without only the unspecified address.
pub open spec fn v6_host_texts(a: int, p: int) -> Seq<Seq<char>> {
    v6_texts_range(v6_network(a, p), v6_broadcast(a, p))
}

/// The addresses whose texts `v4_texts_range` emits.
pub open spec fn v4_hosts_range(first: int, last: int) -> Seq<int>
    decreases last - first + 1,
{
    if first > last {
        Seq::empty()
    } else {
        let rest = v4_hosts_range(first, last - 1);
        if last != 0 && last != 0xffffffff {
            rest.push(last)
        } else {
            rest
        }
    }
}

/// The addresses whose texts `v6_texts_range` emits.
pub open spec fn v6_hosts_range(first: int, last: int) -> Seq<int>
    decreases last - first + 1,
{
    if first > last {
        Seq::empty()
    } else {
        let rest = v6_hosts_range(first, last - 1);
        if last != 0 {
            rest.push(last)
        } else {
            rest
        }
    }
}

/// The dotted-quad texts of the addresses `xs`.
pub open spec fn v4_texts_of(xs: Seq<int>) -> Seq<Seq<char>> {
    xs.map_values(|x: int| v4_text(x as u32))
}

/// The canonical IPv6 texts of the addresses `xs`.
pub open spec fn v6_texts_of(xs: Seq<int>) -> Seq<Seq<char>> {
    xs.map_values(|x: int| v6_text(x as u128))
}

/// What IPv4 expansion emits over a range is exactly the texts of the
/// addresses it keeps.
pub proof fn lemma_v4_texts_are_host_texts(first: int, last: int)
    ensures
        v4_texts_range(first, last) == v4_texts_of(v4_hosts_range(first, last)),
    decreases last - first + 1,
{
    if first > last {
        assert(v4_texts_range(first, last) =~= v4_texts_of(v4_hosts_range(first, last)));
    } else {
        lemma_v4_texts_are_host_texts(first, last - 1);
        assert(v4_texts_range(first, last) =~= v4_texts_of(v4_hosts_range(first, last)));
    }
}

/// What IPv6 expansion emits over a range is exactly the texts of the
/// addresses it keeps.
pub proof fn lemma_v6_texts_are_host_texts(first: int, last: int)
    ensures
        v6_texts_range(first, last) == v6_texts_of(v6_hosts_range(first, last)),
    decreases last - first + 1,
{
    if first > last {
        assert(v6_texts_range(first, last) =~= v6_texts_of(v6_hosts_range(first, last)));
    } else {
        lemma_v6_texts_are_host_texts(first, last - 1);
        assert(v6_texts_range(first, last) =~= v6_texts_of(v6_hosts_range(first, last)));
    }
}

/// IPv4 expansion over a range keeps an address exactly when it lies in
/// the range and is neither the unspecified address nor the all-ones
/// broadcast address.
pub proof fn lemma_v4_range_membership(first: int, last: int, x: int)
    ensures
        v4_hosts_range(first, last).contains(x) <==> (first <= x <= last && x != 0 && x
            != 0xffffffff),
    decreases last - first + 1,
{
    if first > last {
    } else {
        lemma_v4_range_membership(first, last - 1, x);
        let rest = v4_hosts_range(first, last - 1);
        let cur = v4_hosts_range(first, last);
        if last != 0 && last != 0xffffffff {
            if first <= x <= last && x != 0 && x != 0xffffffff {
                if x == last {
                    assert(cur[cur.len() - 1] == x);
                    assert(cur.contains(x));
                } else {
                    let i = choose|i: int| 0 <= i < rest.len() && rest[i] == x;
                    assert(cur[i] == x);
                    assert(cur.contains(x));
                }
            }
            if cur.contains(x) {
                let i = choose|i: int| 0 <= i < cur.len() && cur[i] == x;
                if i < rest.len() {
                    assert(rest[i] == x);
                    assert(rest.contains(x));
                }
            }
        }
    }
}

/// IPv6 expansion over a range keeps an address exactly when it lies in
/// the range and is not the unspecified address. Nothing else is excluded:
/// in particular no "broadcast" address, which IPv6 does not have.
pub proof fn lemma_v6_range_membership(first: int, last: int, x: int)
    ensures
        v6_hosts_range(first, last).contains(x) <==> (first <= x <= last && x != 0),
    decreases last - first + 1,
{
    if first > last {
    } else {
        lemma_v6_range_membership(first, last - 1, x);
        let rest = v6_hosts_range(first, last - 1);
        let cur = v6_hosts_range(first, last);
        if last != 0 {
            if first <= x <= last && x != 0 {
                if x == last {
                    assert(cur[cur.len() - 1] == x);
                    assert(cur.contains(x));
                } else {
                    let i = choose|i: int| 0 <= i < rest.len() && rest[i] == x;
                    assert(cur[i] == x);
                    assert(cur.contains(x));
                }
            }
            if cur.contains(x) {
                let i = choose|i: int| 0 <= i < cur.len() && cur[i] == x;
                if i < rest.len() {
                    assert(rest[i] == x);
                    assert(rest.contains(x));
                }
            }
        }
    }
}

/// What IPv6 expansion of the network `(a, p)` emits: the text of every
/// address of the block except the unspecified one. Only the unspecified
/// address is ever excluded.
pub proof fn lemma_v6_expansion_excludes_only_unspecified(a: int, p: int, x: int)
    ensures
        v6_host_texts(a, p) == v6_texts_of(
            v6_hosts_range(v6_network(a, p), v6_broadcast(a, p)),
        ),
        v6_hosts_range(v6_network(a, p), v6_broadcast(a, p)).contains(x) <==> (v6_network(a, p)
            <= x <= v6_broadcast(a, p) && x != 0),
{
    lemma_v6_texts_are_host_texts(v6_network(a, p), v6_broadcast(a, p));
    lemma_v6_range_membership(v6_network(a, p), v6_broadcast(a, p), x);
}

/// What expansion emits for one target string: the host texts of the IPv4
/// or IPv6 network it denotes, or the string itself unchanged.
pub open spec fn spec_expand_one(t: Seq<char>) -> Seq<Seq<char>> {
    match spec_parse_v4net(t) {
        Some(n) => v4_host_texts(n.0, n.1),
        None => match spec_parse_v6net(t) {
            Some(n) => v6_host_texts(n.0, n.1),
            None => seq![t],
        },
    }
}

/// What expansion emits for a target list: the concatenation of what it
/// emits for each entry, in order.
pub open spec fn spec_expand(ts: Seq<Seq<char>>) -> Seq<Seq<char>>
    decreases ts.len(),
{
    if ts.len() == 0 {
        Seq::empty()
    } else {
        spec_expand(ts.drop_last()) + spec_expand_one(ts.last())
    }
}

/// Relies on ipnet::Ipv4Net::from_str: its parser accepts exactly a dotted
/// quad of one-to-three-digit octets each at most 255 (leading zeros
/// allowed), '/', and a one-or-two-digit prefix length of at most 32,
/// spanning the whole string; the network keeps the address and prefix
/// length exactly as written.
#[verifier::external_body]
fn parse_v4_net(s: &str) -> (r: Option<(u32, u8)>)
    ensures
        (match spec_parse_v4net(s@) {
            Some(n) => r == Some((n.0 as u32, n.1 as u8)),
            None => r is None,
        }),
{
    match s.parse::<ipnet::Ipv4Net>() {
        Ok(net) => Some((u32::from(net.addr()), net.prefix_len())),
        Err(_) => None,
    }
}

/// Relies on ipnet::Ipv6Net::from_str: its parser accepts exactly an IPv6
/// literal under the lenient grammar of its vendored address parser
/// (leading zeros in an embedded quad allowed, "::" may stand for zero
/// groups), '/', and a one-to-three-digit prefix length of at most 128,
/// spanning the whole string; the network keeps the address and prefix
/// length exactly as written.
#[verifier::external_body]
fn parse_v6_net(s: &str) -> (r: Option<(u128, u8)>)
    ensures
        (match spec_parse_v6net(s@) {
            Some(n) => r == Some((n.0 as u128, n.1 as u8)),
            None => r is None,
        }),
{
    match s.parse::<ipnet::Ipv6Net>() {
        Ok(net) => Some((u128::from(net.addr()), net.prefix_len())),
        Err(_) => None,
    }
}

/// Within an address space of `q` blocks of `size` addresses each, the
/// block that holds `a` starts at or below `a` and ends inside the space.
proof fn lemma_block_bounds(a: int, size: int, q: int)
    requires
        0 < size,
        0 < q,
        0 <= a < size * q,
    ensures
        0 <= (a / size) * size,
        (a / size) * size <= a,
        (a / size) * size + size - 1 < size * q,
{
    lemma_remainder_lower(a, size);
    lemma_div_pos_is_pos(a, size);
    lemma_mul_nonnegative(a / size, size);
    lemma_multiply_divide_lt(a, size, q);
    lemma_mul_inequality(a / size + 1, q, size);
    lemma_mul_is_distributive_add_other_way(size, a / size, 1);
    lemma_mul_is_commutative(size, q);
}

/// Two to the power `e`.
fn pow2_u64(e: usize) -> (r: u64)
    requires
        e <= 63,
    ensures
        r as int == pow2(e as nat),
{
    let mut r: u64 = 1;
    let mut k: usize = 0;
    proof {
        lemma2_to64();
    }
    while k < e
        invariant
            k <= e <= 63,
            r as int == pow2(k as nat),
        decreases e - k,
    {
        proof {
            lemma_pow2_unfold((k + 1) as nat);
            lemma_pow2_strictly_increases((k + 1) as nat, 64);
            lemma2_to64();
        }
        r = r * 2;
        k = k + 1;
    }
    r
}

/// Two to the power `e`.
fn pow2_u128(e: usize) -> (r: u128)
    requires
        e <= 127,
    ensures
        r as int == pow2(e as nat),
{
    let mut r: u128 = 1;
    let mut k: usize = 0;
    proof {
        lemma2_to64();
    }
    while k < e
        invariant
            k <= e <= 127,
            r as int == pow2(k as nat),
        decreases e - k,
    {
        proof {
            lemma_pow2_unfold((k + 1) as nat);
            lemma_pow2_strictly_increases((k + 1) as nat, 128);
            lemma_pow2_adds(64, 64);
            lemma2_to64();
        }
        r = r * 2;
        k = k + 1;
    }
    r
}

/// Appends the host texts of the IPv4 network `(a, p)`.
fn emit_v4(out: &mut Vec<String>, a: u32, p: u8)
    requires
        p <= 32,
    ensures
        target_views(final(out)@) == target_views(old(out)@) + v4_host_texts(a as int, p as int),
{
    let ghost base = target_views(out@);
    let block: u64 = pow2_u64((32 - p) as usize);
    proof {
        lemma_pow2_pos((32 - p) as nat);
        lemma_pow2_pos(p as nat);
        lemma_pow2_adds((32 - p) as nat, p as nat);
        lemma2_to64();
        lemma_block_bounds(a as int, block as int, pow2(p as nat) as int);
    }
    let net: u64 = ((a as u64) / block) * block;
    let bcast: u64 = net + (block - 1);
    proof {
        assert(net as int == v4_network(a as int, p as int));
        assert(bcast as int == v4_broadcast(a as int, p as int));
        assert(bcast < 0x100000000);
    }
    let first: u64;
    let last: u64;
    if p < 31 {
        proof {
            lemma_pow2_strictly_increases(1, (32 - p) as nat);
        }
        first = net + 1;
        last = bcast - 1;
    } else {
        first = net;
        last = bcast;
    }
    if first > last {
        proof {
            assert(v4_host_texts(a as int, p as int) =~= Seq::<Seq<char>>::empty());
            assert(target_views(out@) =~= base + v4_host_texts(a as int, p as int));
        }
        return ;
    }
    let mut cur: u64 = first;
    loop
        invariant_except_break
            first <= cur <= last,
            target_views(out@) == base + v4_texts_range(first as int, cur - 1),
        ensures
            target_views(out@) == base + v4_texts_range(first as int, last as int),
        decreases last - cur,
    {
        let ghost pre = target_views(out@);
        if cur != 0 && cur != 0xffffffff {
            let text = v4_string(cur as u32);
            out.push(text);
            proof {
                assert(target_views(out@) =~= pre.push(v4_text(cur as u32)));
            }
        }
        proof {
            assert(v4_texts_range(first as int, cur as int) == (
            if cur != 0 && cur != 0xffffffff {
                v4_texts_range(first as int, cur - 1).push(v4_text(cur as u32))
            } else {
                v4_texts_range(first as int, cur - 1)
            }));
            assert(target_views(out@) =~= base + v4_texts_range(first as int, cur as int));
        }
        if cur == last {
            break ;
        }
        cur = cur + 1;
    }
    proof {
        assert(target_views(out@) =~= base + v4_host_texts(a as int, p as int));
    }
}

/// Appends the host texts of the IPv6 network `(a, p)`.
fn emit_v6(out: &mut Vec<String>, a: u128, p: u8)
    requires
        p <= 128,
    ensures
        target_views(final(out)@) == target_views(old(out)@) + v6_host_texts(a as int, p as int),
{
    let ghost base = target_views(out@);
    let first: u128;
    let last: u128;
    if p == 0 {
        first = 0;
        last = u128::MAX;
        proof {
            lemma_pow2_adds(64, 64);
            lemma2_to64();
            assert((a as int) < v6_block(0));
            lemma_basic_div(a as int, v6_block(0));
            lemma_mul_basics(v6_block(0));
            assert(first as int == v6_network(a as int, 0));
            assert(last as int == v6_broadcast(a as int, 0));
        }
    } else {
        let block: u128 = pow2_u128((128 - p) as usize);
        proof {
            lemma_pow2_pos((128 - p) as nat);
            lemma_pow2_pos(p as nat);
            lemma_pow2_adds((128 - p) as nat, p as nat);
            lemma_pow2_adds(64, 64);
            lemma2_to64();
            assert(pow2(128) == 0x100000000000000000000000000000000);
            lemma_block_bounds(a as int, block as int, pow2(p as nat) as int);
        }
        let net: u128 = (a / block) * block;
        first = net;
        last = net + (block - 1);
        proof {
            assert(net as int == v6_network(a as int, p as int));
            assert(last as int == v6_broadcast(a as int, p as int));
        }
    }
    let mut cur: u128 = first;
    loop
        invariant_except_break
            first <= cur <= last,
            target_views(out@) == base + v6_texts_range(first as int, cur - 1),
        ensures
            target_views(out@) == base + v6_texts_range(first as int, last as int),
        decreases last - cur,
    {
        let ghost pre = target_views(out@);
        if cur != 0 {
            let text = v6_string(cur);
            out.push(text);
            proof {
                assert(target_views(out@) =~= pre.push(v6_text(cur)));
            }
        }
        proof {
            assert(v6_texts_range(first as int, cur as int) == (
            if cur != 0 {
                v6_texts_range(first as int, cur - 1).push(v6_text(cur))
            } else {
                v6_texts_range(first as int, cur - 1)
            }));
            assert(target_views(out@) =~= base + v6_texts_range(first as int, cur as int));
        }
        if cur == last {
            break ;
        }
        cur = cur + 1;
    }
    proof {
        assert(target_views(out@) =~= base + v6_host_texts(a as int, p as int));
    }
}

/// Takes a list of target strings and expands the ones that are CIDR
/// subnets into the text of their host addresses, in ascending order,
/// excluding unspecified and broadcast addresses; every other string
/// passes through unchanged. This never fails: a string that is no subnet
/// is simply kept.
pub fn expand_subnets(hosts: &Vec<String>) -> (r: Vec<String>)
    ensures
        target_views(r@) == spec_expand(target_views(hosts@)),
{
    let ghost tv = target_views(hosts@);
    let mut out: Vec<String> = Vec::new();
    let mut i: usize = 0;
    while i < hosts.len()
        invariant
            i <= hosts@.len(),
            tv == target_views(hosts@),
            target_views(out@) == spec_expand(tv.take(i as int)),
        decreases hosts@.len() - i,
    {
        let ghost pre = target_views(out@);
        let h = &hosts[i];
        match parse_v4_net(h.as_str()) {
            Some(n) => {
                emit_v4(&mut out, n.0, n.1);
            },
            None => {
                match parse_v6_net(h.as_str()) {
                    Some(n) => {
                        emit_v6(&mut out, n.0, n.1);
                    },
                    None => {
                        out.push(h.clone());
                        proof {
                            assert(target_views(out@) =~= pre.push(hosts@[i as int]@));
                        }
                    },
                }
            },
        }
        proof {
            let t1 = tv.take(i + 1);
            assert(t1.drop_last() =~= tv.take(i as int));
            assert(t1.last() == hosts@[i as int]@);
            assert(target_views(out@) =~= pre + spec_expand_one(hosts@[i as int]@));
            assert(target_views(out@) =~= spec_expand(t1));
        }
        i = i + 1;
    }
    proof {
        assert(tv.take(tv.len() as int) =~= tv);
    }
    out
}

} // verus!
