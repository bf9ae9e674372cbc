//! The reachability checker: its configuration, the family filter applied to
//! a host's addresses, and the fold of per-address probe verdicts into one
//! per-host online/offline verdict.
//!
//! The checker itself performs no I/O. The driver probes the eligible
//! addresses and hands the observed verdicts back; every decision about
//! those observations is made, and proved, here.

use vstd::prelude::*;
use crate::addr::IpAddress;
use crate::host::{Host, HostView, hosts_view};

verus! {

/// Which IP version(s) a check connects over.
#[derive(Debug, Clone, Copy, PartialEq, Eq, Structural)]
pub enum IpProtocol {
    /// Connect using IPv4 or IPv6
    Both,
    /// Connect using any IPv4 address
    V4,
    /// Connect using any IPv6 address
    V6,
}

/// How the per-address verdicts of one host combine into its verdict.
#[derive(Debug, Clone, Copy, PartialEq, Eq, Structural)]
pub enum CheckStrategy {
    /// Consider a host online if any eligible address is online
    Any,
    /// Consider a host online if all eligible addresses are online
    All,
}

/// What one TCP connection attempt to one address and port observed.
#[derive(Debug, Clone, Copy, PartialEq, Eq, Structural)]
pub enum ProbeOutcome {
    /// The connection was established within the deadline.
    Open,
    /// The attempt did not complete within the deadline: the expected
    /// outcome for a host that is not listening, never a fault.
    TimedOut,
    /// Any other I/O failure.
    Failed,
}

/// Configuration of a port check: the port to probe, the eligible address
/// family, the connection deadline in milliseconds, and the combination
/// strategy.
#[derive(Debug, Clone, Copy, PartialEq, Eq, Structural)]
pub struct TcpPortCheck {
    pub port: u16,
    pub protocol: IpProtocol,
    pub timeout_ms: u64,
    pub strategy: CheckStrategy,
}

/// Whether `addr` belongs to the family that `protocol` admits.
pub open spec fn family_allows(protocol: IpProtocol, addr: IpAddress) -> bool {
    match protocol {
        IpProtocol::Both => true,
        IpProtocol::V4 => addr is V4,
        IpProtocol::V6 => addr is V6,
    }
}

/// The addresses of `addrs` that `protocol` admits, in order.
pub open spec fn spec_eligible(protocol: IpProtocol, addrs: Seq<IpAddress>) -> Seq<IpAddress> {
    addrs.filter(|a: IpAddress| family_allows(protocol, a))
}

/// The verdict that `strategy` assigns to the per-address verdicts `open`:
/// under `Any` at least one address answered; under `All` every address
/// answered and there was at least one. With no eligible address the host
/// is offline under both strategies.
pub open spec fn spec_online(strategy: CheckStrategy, open: Seq<bool>) -> bool {
    match strategy {
        CheckStrategy::Any => exists|i: int| 0 <= i < open.len() && open[i],
        CheckStrategy::All => open.len() > 0 && forall|i: int| 0 <= i < open.len() ==> open[i],
    }
}

/// The hosts of `hosts` whose verdict in `online` is true, in order.
pub open spec fn spec_collect_online(hosts: Seq<HostView>, online: Seq<bool>) -> Seq<HostView>
    decreases hosts.len(),
{
    if hosts.len() == 0 {
        Seq::empty()
    } else {
        let rest = spec_collect_online(hosts.drop_last(), online.drop_last());
        if hosts.len() <= online.len() && online[hosts.len() - 1] {
            rest.push(hosts.last())
        } else {
            rest
        }
    }
}

impl TcpPortCheck {
    /// The default port check: SSH port, both families, a one second
    /// deadline, online when any address answers.
    pub fn default() -> (r: Self)
        ensures
            r.port == 22,
            r.protocol == IpProtocol::Both,
            r.timeout_ms == 1000,
            r.strategy == CheckStrategy::Any,
    {
        TcpPortCheck {
            port: 22,
            protocol: IpProtocol::Both,
            timeout_ms: 1000,
            strategy: CheckStrategy::Any,
        }
    }

    /// Change the port
    pub fn with_port(self, port: u16) -> (r: Self)
        ensures
            r == (TcpPortCheck { port, ..self }),
    {
        TcpPortCheck { port, ..self }
    }

    /// Change the protocol
    pub fn with_protocol(self, protocol: IpProtocol) -> (r: Self)
        ensures
            r == (TcpPortCheck { protocol, ..self }),
    {
        TcpPortCheck { protocol, ..self }
    }

    /// Change the connection deadline, in milliseconds
    pub fn with_timeout(self, timeout_ms: u64) -> (r: Self)
        ensures
            r == (TcpPortCheck { timeout_ms, ..self }),
    {
        TcpPortCheck { timeout_ms, ..self }
    }

    /// Change the strategy
    pub fn with_strategy(self, strategy: CheckStrategy) -> (r: Self)
        ensures
            r == (TcpPortCheck { strategy, ..self }),
    {
        TcpPortCheck { strategy, ..self }
    }

    /// The addresses of `host` that the configured family admits, in order.
    /// These are the addresses one evaluation round probes.
    pub fn eligible_addresses(&self, host: &Host) -> (r: Vec<IpAddress>)
        ensures
            r@ == spec_eligible(self.protocol, host@.addresses),
    {
        let mut r: Vec<IpAddress> = Vec::new();
        let mut i: usize = 0;
        while i < host.addresses.len()
            invariant
                i <= host.addresses.len(),
                r@ == spec_eligible(self.protocol, host.addresses@.take(i as int)),
            decreases host.addresses.len() - i,
        {
            let a = host.addresses[i];
            let keep = match self.protocol {
                IpProtocol::Both => true,
                IpProtocol::V4 => a.is_ipv4(),
                IpProtocol::V6 => a.is_ipv6(),
            };
            if keep {
                r.push(a);
            }
            proof {
                reveal(Seq::filter);
                assert(host.addresses@.take(i + 1).drop_last() =~= host.addresses@.take(i as int));
                assert(host.addresses@.take(i + 1).last() == host.addresses@[i as int]);
            }
            i = i + 1;
        }
        proof {
            assert(host.addresses@.take(host.addresses@.len() as int) =~= host.addresses@);
        }
        r
    }

    /// Folds the per-address verdicts of one host according to the
    /// configured strategy.
    pub fn combine(&self, open: &Vec<bool>) -> (r: bool)
        ensures
            r == spec_online(self.strategy, open@),
    {
        match self.strategy {
            CheckStrategy::Any => {
                let mut i: usize = 0;
                while i < open.len()
                    invariant
                        self.strategy is Any,
                        i <= open.len(),
                        forall|j: int| 0 <= j < i ==> !open@[j],
                    decreases open.len() - i,
                {
                    if open[i] {
                        proof {
                            assert(0 <= i < open@.len() && open@[i as int]);
                        }
                        return true;
                    }
                    i = i + 1;
                }
                false
            },
            CheckStrategy::All => {
                if open.len() == 0 {
                    return false;
                }
                let mut i: usize = 0;
                while i < open.len()
                    invariant
                        self.strategy is All,
                        open@.len() > 0,
                        i <= open.len(),
                        forall|j: int| 0 <= j < i ==> open@[j],
                    decreases open.len() - i,
                {
                    if !open[i] {
                        proof {
                            assert(!open@[i as int]);
                        }
                        return false;
                    }
                    i = i + 1;
                }
                true
            },
        }
    }

    /// Keeps exactly the hosts whose verdict in `online` is true. The
    /// verdicts are aligned with `hosts`: `online[i]` is the folded probe
    /// verdict of `hosts[i]`.
    pub fn collect_online_from(&self, hosts: &Vec<Host>, online: &Vec<bool>) -> (r: Vec<Host>)
        requires
            hosts@.len() == online@.len(),
        ensures
            hosts_view(r@) == spec_collect_online(hosts_view(hosts@), online@),
    {
        let mut r: Vec<Host> = Vec::new();
        let mut i: usize = 0;
        while i < hosts.len()
            invariant
                i <= hosts.len(),
                hosts@.len() == online@.len(),
                hosts_view(r@) == spec_collect_online(
                    hosts_view(hosts@.take(i as int)),
                    online@.take(i as int),
                ),
            decreases hosts.len() - i,
        {
            let ghost pre = hosts_view(r@);
            if online[i] {
                r.push(hosts[i].clone());
            }
            proof {
                let ht = hosts_view(hosts@.take(i + 1));
                let ot = online@.take(i + 1);
                assert(ht.drop_last() =~= hosts_view(hosts@.take(i as int)));
                assert(ot.drop_last() =~= online@.take(i as int));
                assert(ht.last() == hosts@[i as int]@);
                if online@[i as int] {
                    assert(hosts_view(r@) =~= pre.push(hosts@[i as int]@));
                }
            }
            i = i + 1;
        }
        proof {
            assert(hosts@.take(hosts@.len() as int) =~= hosts@);
            assert(online@.take(online@.len() as int) =~= online@);
        }
        r
    }
}

/// Under the `Both` filter every address of a host is eligible, in order:
/// for such a host the per-address verdicts cover all its addresses.
pub proof fn lemma_both_filter_keeps_all(addrs: Seq<IpAddress>)
    ensures
        spec_eligible(IpProtocol::Both, addrs) == addrs,
    decreases addrs.len(),
{
    reveal(Seq::filter);
    if addrs.len() > 0 {
        lemma_both_filter_keeps_all(addrs.drop_last());
        assert(spec_eligible(IpProtocol::Both, addrs) =~= addrs);
    } else {
        assert(spec_eligible(IpProtocol::Both, addrs) =~= addrs);
    }
}

/// A family filter that admits none of a host's addresses leaves nothing
/// eligible — the host is then offline under both strategies (see
/// `lemma_no_eligible_offline`), whatever the actual state of any port.
pub proof fn lemma_filter_excludes_all(protocol: IpProtocol, addrs: Seq<IpAddress>)
    requires
        forall|i: int| 0 <= i < addrs.len() ==> !family_allows(protocol, addrs[i]),
    ensures
        spec_eligible(protocol, addrs).len() == 0,
    decreases addrs.len(),
{
    reveal(Seq::filter);
    if addrs.len() > 0 {
        lemma_filter_excludes_all(protocol, addrs.drop_last());
    }
}

/// For a host whose eligible addresses answered as `open[0]` and `open[1]`,
/// the `Any` strategy finds it online exactly when either address answered,
/// and the `All` strategy exactly when both did.
pub proof fn lemma_two_address_verdicts(open: Seq<bool>)
    requires
        open.len() == 2,
    ensures
        spec_online(CheckStrategy::Any, open) == (open[0] || open[1]),
        spec_online(CheckStrategy::All, open) == (open[0] && open[1]),
{
    if open[0] || open[1] {
        assert(spec_online(CheckStrategy::Any, open)) by {
            if open[0] {
                assert(0 <= 0 < open.len() && open[0]);
            } else {
                assert(0 <= 1 < open.len() && open[1]);
            }
        }
    }
    if open[0] && open[1] {
        assert forall|i: int| 0 <= i < open.len() implies open[i] by {
            if i == 0 {
            } else {
                assert(i == 1);
            }
        }
    }
}

/// A host with no eligible address — in particular one whose addresses the
/// family filter excludes entirely — is offline under both strategies,
/// whatever the actual state of any port.
pub proof fn lemma_no_eligible_offline(strategy: CheckStrategy, open: Seq<bool>)
    requires
        open.len() == 0,
    ensures
        !spec_online(strategy, open),
{
}

/// Two evaluation rounds that observe the same per-host verdicts over the
/// same hosts select exactly the same hosts: evaluation keeps no state
/// between rounds, so an unchanged world gives an unchanged result.
pub proof fn lemma_collect_online_idempotent(
    hosts: Seq<HostView>,
    open1: Seq<bool>,
    open2: Seq<bool>,
)
    requires
        open1 == open2,
    ensures
        spec_collect_online(hosts, open1) == spec_collect_online(hosts, open2),
{
}

/// Classifies a probe outcome for the standalone single-address check:
/// an established connection is online, a timeout is offline, and any
/// other failure is no verdict at all and must be surfaced to the caller.
pub fn probe_verdict(outcome: ProbeOutcome) -> (r: Option<bool>)
    ensures
        r == (match outcome {
            ProbeOutcome::Open => Some(true),
            ProbeOutcome::TimedOut => Some(false),
            ProbeOutcome::Failed => None::<bool>,
        }),
{
    match outcome {
        ProbeOutcome::Open => Some(true),
        ProbeOutcome::TimedOut => Some(false),
        ProbeOutcome::Failed => None,
    }
}

/// Folds a probe outcome into the boolean reachability used inside batch
/// evaluation: only an established connection counts, and a probe fault is
/// deliberately treated like a closed port so that one bad address never
/// aborts a round.
pub fn address_reachable(outcome: ProbeOutcome) -> (r: bool)
    ensures
        r == (outcome is Open),
{
    match outcome {
        ProbeOutcome::Open => true,
        _ => false,
    }
}

/// The size of the worker pool that performs the probes: the configured
/// count when one was given, otherwise four workers per unit of available
/// hardware parallelism, capped at 255.
pub fn worker_pool_size(parallelism: usize, configured: u8) -> (r: usize)
    ensures
        configured != 0 ==> r == configured as usize,
        configured == 0 && parallelism * 4 <= 255 ==> r == parallelism * 4,
        configured == 0 && parallelism * 4 > 255 ==> r == 255,
{
    if configured != 0 {
        configured as usize
    } else if parallelism >= 64 {
        255
    } else {
        let four: usize = parallelism * 4;
        if four > 255 {
            255
        } else {
            four
        }
    }
}

} // verus!
