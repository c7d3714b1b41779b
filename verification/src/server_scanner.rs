//! Filtering the host's socket table and aggregating a scan pass.
//!
//! The caller queries the operating system for its socket table and probes
//! each listening TCP endpoint over the wire; both are I/O and stay
//! outside. This module holds the two decisions of a scan: which socket
//! table entries are candidates, and which probe outcomes count as found
//! servers.

use vstd::multiset::Multiset;
use vstd::prelude::*;

use crate::packets::DecodeError;
use crate::packets::ServerQueryResponse;
use crate::packets::ServerQueryView;
use crate::packets::decode_spec;

verus! {

/// A host address, as the socket table reports it.
#[derive(Debug, Clone, Copy, PartialEq, Eq, Structural)]
pub enum IpAddress {
    V4(u8, u8, u8, u8),
    V6(u16, u16, u16, u16, u16, u16, u16, u16),
}

/// What a socket table entry is doing, as far as a scan cares: only
/// listening TCP sockets are probe candidates.
#[derive(Debug, Clone, Copy, PartialEq, Eq, Structural)]
pub enum SocketState {
    /// A TCP socket accepting inbound connections.
    TcpListen,
    /// A TCP socket in any other state.
    TcpOther,
    /// A socket of another protocol.
    NotTcp,
}

/// One row of the operating system's socket table.
#[derive(Debug, Clone, Copy, PartialEq, Eq, Structural)]
pub struct SocketTableEntry {
    pub address: IpAddress,
    pub port: u16,
    pub state: SocketState,
}

/// A local TCP socket in the listening state: a probe candidate.
#[derive(Debug, Clone, Copy, PartialEq, Eq, Structural)]
pub struct ListeningEndpoint {
    pub address: IpAddress,
    pub port: u16,
}

pub open spec fn endpoint_of(e: SocketTableEntry) -> ListeningEndpoint {
    ListeningEndpoint { address: e.address, port: e.port }
}

/// The listening TCP endpoints among the given entries, in table order.
pub open spec fn listening_endpoints_of(entries: Seq<SocketTableEntry>) -> Seq<ListeningEndpoint>
    decreases entries.len(),
{
    if entries.len() == 0 {
        Seq::<ListeningEndpoint>::empty()
    } else {
        let rest = listening_endpoints_of(entries.drop_first());
        if entries[0].state is TcpListen {
            seq![endpoint_of(entries[0])] + rest
        } else {
            rest
        }
    }
}

/// Keep exactly the rows that are TCP sockets in the listening state.
pub fn filter_listening_endpoints(entries: &Vec<SocketTableEntry>) -> (r: Vec<ListeningEndpoint>)
    ensures
        r@ == listening_endpoints_of(entries@),
{
    let mut r: Vec<ListeningEndpoint> = Vec::new();
    let mut i: usize = 0;
    proof {
        assert(entries@.skip(0) =~= entries@);
        assert(r@ + listening_endpoints_of(entries@) =~= listening_endpoints_of(entries@));
    }
    while i < entries.len()
        invariant
            i <= entries@.len(),
            listening_endpoints_of(entries@) == r@ + listening_endpoints_of(
                entries@.skip(i as int),
            ),
        decreases entries@.len() - i,
    {
        let e = entries[i];
        proof {
            assert(entries@.skip(i as int)[0] == entries@[i as int]);
            assert(entries@.skip(i as int).drop_first() =~= entries@.skip(i + 1));
        }
        let ghost r_prev = r@;
        let ghost tail = listening_endpoints_of(entries@.skip(i + 1));
        if matches!(e.state, SocketState::TcpListen) {
            r.push(ListeningEndpoint { address: e.address, port: e.port });
            proof {
                assert(r_prev + (seq![endpoint_of(entries@[i as int])] + tail) =~= r@ + tail);
            }
        }
        i = i + 1;
    }
    proof {
        assert(entries@.skip(entries@.len() as int) =~= Seq::<SocketTableEntry>::empty());
        assert(r@ + Seq::<ListeningEndpoint>::empty() =~= r@);
    }
    r
}

// ---------------------------------------------------------------------
// Probe outcomes and scan aggregation
// ---------------------------------------------------------------------

/// Why a probe of one candidate produced no response buffer.
#[derive(Debug, Clone, Copy, PartialEq, Eq, Structural)]
pub enum ProbeError {
    /// The connection could not be opened.
    ConnectError,
    /// No bytes arrived before the read timeout elapsed.
    TimeoutError,
}

/// What probing one candidate endpoint came to: the bytes read from it,
/// or why there are none.
#[derive(Debug)]
pub struct ProbeOutcome {
    pub port: u16,
    pub response: Result<Vec<u8>, ProbeError>,
}

/// Mathematical image of a `ProbeOutcome`.
#[verifier::ext_equal]
pub ghost struct ProbeOutcomeView {
    pub port: u16,
    pub response: Result<Seq<u8>, ProbeError>,
}

impl View for ProbeOutcome {
    type V = ProbeOutcomeView;

    open spec fn view(&self) -> ProbeOutcomeView {
        ProbeOutcomeView {
            port: self.port,
            response: match self.response {
                Ok(bytes) => Ok(bytes@),
                Err(e) => Err(e),
            },
        }
    }
}

/// A probe counts only when it read bytes and those bytes decode.
pub open spec fn probe_succeeded(o: ProbeOutcomeView) -> bool {
    &&& o.response is Ok
    &&& decode_spec(o.response->Ok_0) is Ok
}

/// The servers a scan pass found: one `(response, port)` pair for every
/// probe that read a buffer that decodes, in probe order; every failure,
/// whether connect, timeout or decode, contributes nothing.
pub open spec fn scan_results_of(outs: Seq<ProbeOutcomeView>) -> Seq<(ServerQueryView, u16)>
    decreases outs.len(),
{
    if outs.len() == 0 {
        Seq::<(ServerQueryView, u16)>::empty()
    } else {
        let rest = scan_results_of(outs.drop_first());
        if probe_succeeded(outs[0]) {
            seq![(decode_spec(outs[0].response->Ok_0)->Ok_0, outs[0].port)] + rest
        } else {
            rest
        }
    }
}

/// Aggregate the outcomes of one scan pass into the found servers.
pub fn collect_scan_results(outcomes: &Vec<ProbeOutcome>) -> (r: Vec<(ServerQueryResponse, u16)>)
    ensures
        r@.map_values(|p: (ServerQueryResponse, u16)| (p.0@, p.1)) == scan_results_of(
            outcomes@.map_values(|o: ProbeOutcome| o@),
        ),
{
    let ghost outs = outcomes@.map_values(|o: ProbeOutcome| o@);
    let mut r: Vec<(ServerQueryResponse, u16)> = Vec::new();
    let mut i: usize = 0;
    proof {
        assert(outs.skip(0) =~= outs);
        assert(r@.map_values(|p: (ServerQueryResponse, u16)| (p.0@, p.1)) + scan_results_of(outs)
            =~= scan_results_of(outs));
    }
    while i < outcomes.len()
        invariant
            i <= outcomes@.len(),
            outs == outcomes@.map_values(|o: ProbeOutcome| o@),
            scan_results_of(outs) == r@.map_values(|p: (ServerQueryResponse, u16)| (p.0@, p.1))
                + scan_results_of(outs.skip(i as int)),
        decreases outcomes@.len() - i,
    {
        let o = &outcomes[i];
        proof {
            assert(outs.skip(i as int)[0] == outs[i as int]);
            assert(outs.skip(i as int).drop_first() =~= outs.skip(i + 1));
        }
        let ghost r_prev = r@;
        let ghost tail = scan_results_of(outs.skip(i + 1));
        match &o.response {
            Ok(bytes) => {
                match ServerQueryResponse::read(bytes.as_slice()) {
                    Ok(resp) => {
                        r.push((resp, o.port));
                        proof {
                            let f = |p: (ServerQueryResponse, u16)| (p.0@, p.1);
                            assert(r@.map_values(f) =~= r_prev.map_values(f).push(
                                (decode_spec(outs[i as int].response->Ok_0)->Ok_0,
                                outs[i as int].port),
                            ));
                            assert(r_prev.map_values(f) + (seq![
                                (decode_spec(outs[i as int].response->Ok_0)->Ok_0,
                                outs[i as int].port),
                            ] + tail) =~= r@.map_values(f) + tail);
                        }
                    },
                    Err(_) => {
                        proof {
                            assert(!probe_succeeded(outs[i as int]));
                        }
                    },
                }
            },
            Err(_) => {
                proof {
                    assert(!probe_succeeded(outs[i as int]));
                }
            },
        }
        i = i + 1;
    }
    proof {
        assert(outs.skip(outs.len() as int) =~= Seq::<ProbeOutcomeView>::empty());
        assert(r@.map_values(|p: (ServerQueryResponse, u16)| (p.0@, p.1))
            + Seq::<(ServerQueryView, u16)>::empty() =~= r@.map_values(
            |p: (ServerQueryResponse, u16)| (p.0@, p.1),
        ));
    }
    r
}

/// Decode the buffer a probe read, rejecting an empty one outright.
pub fn is_minecraft_response(buffer: &[u8]) -> (r: Result<ServerQueryResponse, DecodeError>)
    ensures
        match r {
            Ok(resp) => decode_spec(buffer@) == Ok::<ServerQueryView, DecodeError>(resp@),
            Err(e) => decode_spec(buffer@) == Err::<ServerQueryView, DecodeError>(e),
        },
{
    if buffer.len() == 0 {
        return Err(DecodeError::EmptyBuffer);
    }
    ServerQueryResponse::read(buffer)
}

// ---------------------------------------------------------------------
// Scan laws
// ---------------------------------------------------------------------

/// A scan pass over no candidates finds nothing.
pub proof fn lemma_scan_of_no_probes(outs: Seq<ProbeOutcomeView>)
    requires
        outs.len() == 0,
    ensures
        scan_results_of(outs).len() == 0,
{
}

/// `probe_succeeded` as a function value, so that the sequence and
/// multiset filters below speak of one and the same predicate.
pub open spec fn succeeding() -> spec_fn(ProbeOutcomeView) -> bool {
    |o: ProbeOutcomeView| probe_succeeded(o)
}

/// The successful probes among `outs`, in order.
pub open spec fn successful_probes(outs: Seq<ProbeOutcomeView>) -> Seq<ProbeOutcomeView> {
    outs.filter(succeeding())
}

/// A scan pass finds exactly one server per successful probe, however
/// many candidates there were.
pub proof fn lemma_scan_len_counts_successes(outs: Seq<ProbeOutcomeView>)
    ensures
        scan_results_of(outs).len() == successful_probes(outs).len(),
    decreases outs.len(),
{
    reveal_with_fuel(Seq::filter, 2);
    if outs.len() == 0 {
        assert(outs =~= Seq::<ProbeOutcomeView>::empty());
    } else {
        let pred = succeeding();
        lemma_scan_len_counts_successes(outs.drop_first());
        assert(outs =~= seq![outs[0]] + outs.drop_first());
        Seq::filter_distributes_over_add(seq![outs[0]], outs.drop_first(), pred);
        assert(seq![outs[0]].drop_last() =~= Seq::<ProbeOutcomeView>::empty());
        assert(Seq::<ProbeOutcomeView>::empty().filter(pred) =~= Seq::<
            ProbeOutcomeView,
        >::empty());
        assert(seq![outs[0]].filter(pred).len() == if pred(outs[0]) {
            1int
        } else {
            0int
        });
    }
}

/// Filtering a multiset by `succeeding` and filtering the sequence that
/// built it come to the same collection.
proof fn lemma_successes_multiset(s: Seq<ProbeOutcomeView>)
    ensures
        successful_probes(s).to_multiset() == s.to_multiset().filter(succeeding()),
    decreases s.len(),
{
    broadcast use vstd::seq_lib::group_to_multiset_ensures;
    broadcast use vstd::multiset::group_multiset_axioms;

    let pred = succeeding();
    reveal_with_fuel(Seq::filter, 2);
    if s.len() == 0 {
        assert(s =~= Seq::<ProbeOutcomeView>::empty());
        assert(successful_probes(s) =~= Seq::<ProbeOutcomeView>::empty());
        vstd::multiset::lemma_multiset_empty_len(s.to_multiset());
        vstd::multiset::lemma_multiset_empty_len(successful_probes(s).to_multiset());
        assert(s.to_multiset().filter(pred) =~= Multiset::<ProbeOutcomeView>::empty());
    } else {
        let t = s.drop_last();
        let x = s.last();
        lemma_successes_multiset(t);
        assert(s =~= t.push(x));
        assert(s.to_multiset() =~= t.to_multiset().insert(x));
        assert(s.to_multiset().filter(pred) =~= if pred(x) {
            t.to_multiset().filter(pred).insert(x)
        } else {
            t.to_multiset().filter(pred)
        });
        if pred(x) {
            assert(successful_probes(s) == successful_probes(t).push(x));
            assert(successful_probes(s).to_multiset() =~= successful_probes(
                t,
            ).to_multiset().insert(x));
        } else {
            assert(successful_probes(s) == successful_probes(t));
        }
    }
}

/// How many servers a scan pass finds does not depend on the order the
/// probes came back in: two passes whose outcomes are the same multiset
/// find the same number of servers, however many candidates each had.
pub proof fn lemma_scan_len_order_blind(a: Seq<ProbeOutcomeView>, b: Seq<ProbeOutcomeView>)
    requires
        a.to_multiset() == b.to_multiset(),
    ensures
        scan_results_of(a).len() == scan_results_of(b).len(),
{
    broadcast use vstd::seq_lib::group_to_multiset_ensures;

    lemma_scan_len_counts_successes(a);
    lemma_scan_len_counts_successes(b);
    lemma_successes_multiset(a);
    lemma_successes_multiset(b);
    assert(successful_probes(a).len() == successful_probes(a).to_multiset().len());
    assert(successful_probes(b).len() == successful_probes(b).to_multiset().len());
}

} // verus!
