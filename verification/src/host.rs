//! A resolved host: the original target string together with every address
//! it stands for. A host is only ever constructed with at least one address;
//! a target that yields none is a resolution failure, not a host.

use vstd::prelude::*;
use crate::addr::IpAddress;
use crate::parse::{parse_ip, spec_parse_ip};

verus! {

/// Raised when a target string is neither an IP literal nor resolvable.
#[derive(Debug)]
pub struct HostParseError;

/// A host that carries a name, and a list of addresses associated with that
/// name. The name can be a host name, FQDN, or IP address literal.
#[derive(Debug)]
pub struct Host {
    pub name: String,
    pub addresses: Vec<IpAddress>,
}

/// The mathematical content of a `Host`: its name as a character sequence
/// and its addresses in resolver order.
pub struct HostView {
    pub name: Seq<char>,
    pub addresses: Seq<IpAddress>,
}

impl View for Host {
    type V = HostView;

    open spec fn view(&self) -> HostView {
        HostView { name: self.name@, addresses: self.addresses@ }
    }
}

/// A well-formed host has at least one address.
pub open spec fn host_wf(h: HostView) -> bool {
    h.addresses.len() > 0
}

/// The views of a sequence of hosts.
pub open spec fn hosts_view(hosts: Seq<Host>) -> Seq<HostView> {
    hosts.map_values(|h: Host| h@)
}

/// The views of a sequence of target strings.
pub open spec fn target_views(ts: Seq<String>) -> Seq<Seq<char>> {
    ts.map_values(|t: String| t@)
}

/// The views of a sequence of resolver answers.
pub open spec fn lookup_views(ls: Seq<Option<Vec<IpAddress>>>) -> Seq<Option<Seq<IpAddress>>> {
    ls.map_values(
        |o: Option<Vec<IpAddress>>|
            match o {
                Some(v) => Some(v@),
                None => None,
            },
    )
}

/// The hosts that one resolution round yields for `targets`, where
/// `lookups[i]` is what the name resolver answered for `targets[i]`
/// (`None` when the lookup failed). A target that is itself an IP literal
/// is its own single-address host, and no lookup is consulted for it; any
/// other target contributes a host exactly when its lookup succeeded with
/// at least one address; every other target is dropped silently.
pub open spec fn spec_resolve(
    targets: Seq<Seq<char>>,
    lookups: Seq<Option<Seq<IpAddress>>>,
) -> Seq<HostView>
    decreases targets.len(),
{
    if targets.len() == 0 {
        Seq::empty()
    } else {
        let rest = spec_resolve(targets.drop_last(), lookups.drop_last());
        let t = targets.last();
        let i = targets.len() - 1;
        match spec_parse_ip(t) {
            Some(a) => rest.push(HostView { name: t, addresses: seq![a] }),
            None => if i < lookups.len() && (lookups[i] matches Some(addrs) && addrs.len() > 0) {
                rest.push(HostView { name: t, addresses: lookups[i]->Some_0 })
            } else {
                rest
            },
        }
    }
}

impl Clone for Host {
    /// Cloning keeps the name and the address list.
    fn clone(&self) -> (res: Self)
        ensures
            res@ == self@,
    {
        let mut addresses: Vec<IpAddress> = Vec::new();
        let mut i: usize = 0;
        while i < self.addresses.len()
            invariant
                i <= self.addresses.len(),
                addresses@ == self.addresses@.take(i as int),
            decreases self.addresses.len() - i,
        {
            addresses.push(self.addresses[i]);
            proof {
                assert(self.addresses@.take(i + 1) =~= self.addresses@.take(i as int).push(
                    self.addresses@[i as int],
                ));
            }
            i = i + 1;
        }
        proof {
            assert(self.addresses@.take(self.addresses@.len() as int) =~= self.addresses@);
        }
        Host { name: self.name.clone(), addresses }
    }
}

impl Host {
    /// The host for a target string that is itself an IP literal, carrying
    /// that single address; no lookup is performed. A string that is no
    /// literal is rejected: it needs the resolver (see `from_resolved`).
    pub fn from_literal(name: &str) -> (r: Result<Host, HostParseError>)
        ensures
            (match spec_parse_ip(name@) {
                Some(a) => r matches Ok(h) && h@ == (HostView {
                    name: name@,
                    addresses: seq![a],
                }),
                None => r is Err,
            }),
            r matches Ok(h) ==> host_wf(h@),
    {
        match parse_ip(name) {
            Some(a) => {
                let mut addresses: Vec<IpAddress> = Vec::new();
                addresses.push(a);
                proof {
                    assert(addresses@ =~= seq![a]);
                }
                Ok(Host { name: name.to_owned(), addresses })
            },
            None => Err(HostParseError),
        }
    }

    /// The host for a name that the resolver answered with `addresses`. An
    /// empty answer is no usable result: it is rejected, so that every
    /// constructed host is well-formed.
    pub fn from_resolved(name: &str, addresses: Vec<IpAddress>) -> (r: Result<Host, HostParseError>)
        ensures
            addresses@.len() > 0 ==> (r matches Ok(h) && h@ == (HostView {
                name: name@,
                addresses: addresses@,
            })),
            addresses@.len() == 0 ==> r is Err,
            r matches Ok(h) ==> host_wf(h@),
    {
        if addresses.len() == 0 {
            Err(HostParseError)
        } else {
            Ok(Host { name: name.to_owned(), addresses })
        }
    }
}

/// Whether target `i` resolves in a round: it is an IP literal of its own,
/// or its lookup succeeded with at least one address.
pub open spec fn target_resolves(
    targets: Seq<Seq<char>>,
    lookups: Seq<Option<Seq<IpAddress>>>,
    i: int,
) -> bool {
    spec_parse_ip(targets[i]) is Some || (i < lookups.len() && (lookups[i] matches Some(addrs)
        && addrs.len() > 0))
}

/// The names of a sequence of hosts.
pub open spec fn host_names(hs: Seq<HostView>) -> Seq<Seq<char>> {
    hs.map_values(|h: HostView| h.name)
}

/// Which names a round resolves is a function of the target list and the
/// resolver's answers alone: a name appears among the resolved hosts'
/// names exactly when some target equals it and resolves. The membership
/// of the resolved set is therefore stable across repeated rounds with the
/// same answers, however the parallel workers happen to be scheduled.
pub proof fn lemma_resolved_name_membership(
    targets: Seq<Seq<char>>,
    lookups: Seq<Option<Seq<IpAddress>>>,
    n: Seq<char>,
)
    requires
        targets.len() == lookups.len(),
    ensures
        host_names(spec_resolve(targets, lookups)).contains(n) <==> exists|i: int|
            0 <= i < targets.len() && targets[i] == n && target_resolves(targets, lookups, i),
    decreases targets.len(),
{
    if targets.len() == 0 {
    } else {
        let t1 = targets.drop_last();
        let l1 = lookups.drop_last();
        lemma_resolved_name_membership(t1, l1, n);
        let rest = spec_resolve(t1, l1);
        let all = spec_resolve(targets, lookups);
        let last_i = targets.len() - 1;
        assert forall|i: int| 0 <= i < t1.len() implies (target_resolves(t1, l1, i)
            == target_resolves(targets, lookups, i)) by {
            assert(t1[i] == targets[i]);
            assert(i < l1.len() ==> l1[i] == lookups[i]);
        }
        let pushed = target_resolves(targets, lookups, last_i);
        if pushed {
            assert(host_names(all) =~= host_names(rest).push(targets.last()));
        } else {
            assert(host_names(all) =~= host_names(rest));
        }
        if host_names(all).contains(n) {
            let k = choose|k: int|
                0 <= k < host_names(all).len() && host_names(all)[k] == n;
            if k < host_names(rest).len() {
                assert(host_names(rest)[k] == n);
                assert(host_names(rest).contains(n));
                let i = choose|i: int|
                    0 <= i < t1.len() && t1[i] == n && target_resolves(t1, l1, i);
                assert(0 <= i < targets.len() && targets[i] == n && target_resolves(
                    targets,
                    lookups,
                    i,
                ));
            } else {
                assert(pushed && n == targets.last());
                assert(0 <= last_i < targets.len() && targets[last_i] == n && target_resolves(
                    targets,
                    lookups,
                    last_i,
                ));
            }
        }
        if exists|i: int|
            0 <= i < targets.len() && targets[i] == n && target_resolves(targets, lookups, i) {
            let i = choose|i: int|
                0 <= i < targets.len() && targets[i] == n && target_resolves(targets, lookups, i);
            if i < last_i {
                assert(t1[i] == n && target_resolves(t1, l1, i));
                assert(host_names(rest).contains(n));
                let k = choose|k: int|
                    0 <= k < host_names(rest).len() && host_names(rest)[k] == n;
                assert(host_names(all)[k] == n);
                assert(host_names(all).contains(n));
            } else {
                assert(pushed);
                assert(host_names(all)[host_names(all).len() - 1] == n);
                assert(host_names(all).contains(n));
            }
        }
    }
}

/// One resolution round over `targets`, with the resolver's answers handed
/// in: `lookups[i]` is what the name resolver returned for `targets[i]`,
/// or `None` when that lookup failed. Targets that are IP literals never
/// consult their entry. Yields exactly the hosts that resolved, in target
/// order; failures are dropped silently, and every host has at least one
/// address.
pub fn resolve_hosts_from(targets: &Vec<String>, lookups: Vec<Option<Vec<IpAddress>>>) -> (r: Vec<
    Host,
>)
    requires
        targets@.len() == lookups@.len(),
    ensures
        hosts_view(r@) == spec_resolve(target_views(targets@), lookup_views(lookups@)),
        forall|k: int| 0 <= k < r@.len() ==> host_wf(#[trigger] r@[k]@),
{
    let ghost tv = target_views(targets@);
    let ghost lv = lookup_views(lookups@);
    let ghost olk = lookups@;
    let mut lk = lookups;
    let mut r: Vec<Host> = Vec::new();
    let mut i: usize = 0;
    while i < targets.len()
        invariant
            i <= targets@.len(),
            tv == target_views(targets@),
            tv.len() == lv.len() == olk.len() == targets@.len(),
            lv == lookup_views(olk),
            lk@ == olk.skip(i as int),
            hosts_view(r@) == spec_resolve(tv.take(i as int), lv.take(i as int)),
            forall|k: int| 0 <= k < r@.len() ==> host_wf(#[trigger] r@[k]@),
        decreases targets@.len() - i,
    {
        let ghost pre = hosts_view(r@);
        proof {
            assert(lk@.len() == olk.len() - i);
            assert(lk@[0] == olk[i as int]);
        }
        let o = lk.remove(0);
        let t = &targets[i];
        match parse_ip(t.as_str()) {
            Some(a) => {
                let mut addrs: Vec<IpAddress> = Vec::new();
                addrs.push(a);
                let h = Host { name: t.clone(), addresses: addrs };
                proof {
                    assert(h@.addresses =~= seq![a]);
                }
                r.push(h);
            },
            None => {
                match o {
                    Some(addrs) => {
                        if addrs.len() > 0 {
                            r.push(Host { name: t.clone(), addresses: addrs });
                        }
                    },
                    None => {},
                }
            },
        }
        proof {
            let t1 = tv.take(i + 1);
            let l1 = lv.take(i + 1);
            assert(t1.drop_last() =~= tv.take(i as int));
            assert(l1.drop_last() =~= lv.take(i as int));
            assert(t1.last() == targets@[i as int]@);
            assert(l1[i as int] == lv[i as int]);
            if spec_parse_ip(targets@[i as int]@) is Some {
                assert(hosts_view(r@) =~= pre.push(r@.last()@));
            } else {
                if lv[i as int] matches Some(addrs) && addrs.len() > 0 {
                    assert(hosts_view(r@) =~= pre.push(r@.last()@));
                } else {
                    assert(hosts_view(r@) =~= pre);
                }
            }
            assert(lk@ =~= olk.skip(i + 1));
        }
        i = i + 1;
    }
    proof {
        assert(tv.take(tv.len() as int) =~= tv);
        assert(lv.take(lv.len() as int) =~= lv);
    }
    r
}

} // verus!
