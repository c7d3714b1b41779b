//! Tracking the port mappings a gateway session has opened.
//!
//! Talking to the gateway itself — the UPnP discovery search, the add and
//! remove requests — is network I/O and stays with the caller. This module
//! is the session's book-keeping: which mappings the gateway accepted, so
//! that every one of them can be handed back for removal when the session
//! closes, whatever became of the individual removal attempts.

use vstd::prelude::*;

verus! {

/// The transport a gateway mapping routes.
#[derive(Debug, Clone, Copy, PartialEq, Eq, Structural)]
pub enum MappingProtocol {
    Tcp,
    Udp,
}

/// One mapping request, as it is put to the gateway: route the external
/// port to this host's internal port.
#[derive(Debug)]
pub struct PortMapping {
    pub internal_port: u16,
    pub external_port: u16,
    pub protocol: MappingProtocol,
    pub description: String,
    /// How long the gateway should keep the mapping, in seconds, on
    /// backends that support a lease; `None` where the backend does not.
    pub lease_seconds: Option<u32>,
}

/// Mathematical image of a `PortMapping`.
#[verifier::ext_equal]
pub ghost struct PortMappingView {
    pub internal_port: u16,
    pub external_port: u16,
    pub protocol: MappingProtocol,
    pub description: Seq<char>,
    pub lease_seconds: Option<u32>,
}

impl View for PortMapping {
    type V = PortMappingView;

    open spec fn view(&self) -> PortMappingView {
        PortMappingView {
            internal_port: self.internal_port,
            external_port: self.external_port,
            protocol: self.protocol,
            description: self.description@,
            lease_seconds: self.lease_seconds,
        }
    }
}

/// Mappings are tracked by external port and protocol: the pair the
/// gateway itself keys its mapping table with.
pub open spec fn mapping_key(m: PortMappingView) -> (u16, MappingProtocol) {
    (m.external_port, m.protocol)
}

/// The description every mapping is requested under.
pub open spec fn forwarding_description() -> Seq<char> {
    "MinecraftLAN"@
}

/// `ms` without every mapping keyed `k`, in order.
pub open spec fn without_key(ms: Seq<PortMappingView>, k: (u16, MappingProtocol)) -> Seq<
    PortMappingView,
>
    decreases ms.len(),
{
    if ms.len() == 0 {
        Seq::<PortMappingView>::empty()
    } else {
        let rest = without_key(ms.drop_first(), k);
        if mapping_key(ms[0]) == k {
            rest
        } else {
            seq![ms[0]] + rest
        }
    }
}

/// No two mappings share a key.
pub open spec fn distinct_keys(ms: Seq<PortMappingView>) -> bool {
    forall|i: int, j: int|
        0 <= i < j < ms.len() ==> mapping_key(#[trigger] ms[i]) != mapping_key(
            #[trigger] ms[j],
        )
}

/// Whatever `without_key` keeps was already there.
proof fn lemma_without_key_subset(ms: Seq<PortMappingView>, k: (u16, MappingProtocol), i: int)
    requires
        0 <= i < without_key(ms, k).len(),
    ensures
        exists|j: int|
            0 <= j < ms.len() && ms[j] == without_key(ms, k)[i] && mapping_key(ms[j]) != k,
    decreases ms.len(),
{
    if ms.len() > 0 {
        let rest = without_key(ms.drop_first(), k);
        if mapping_key(ms[0]) == k {
            lemma_without_key_subset(ms.drop_first(), k, i);
            let j = choose|j: int|
                0 <= j < ms.drop_first().len() && ms.drop_first()[j] == rest[i] && mapping_key(
                    ms.drop_first()[j],
                ) != k;
            assert(ms[j + 1] == without_key(ms, k)[i] && mapping_key(ms[j + 1]) != k);
        } else {
            if i == 0 {
                assert(ms[0] == without_key(ms, k)[0]);
            } else {
                lemma_without_key_subset(ms.drop_first(), k, i - 1);
                let j = choose|j: int|
                    0 <= j < ms.drop_first().len() && ms.drop_first()[j] == rest[i - 1]
                        && mapping_key(ms.drop_first()[j]) != k;
                assert(ms[j + 1] == without_key(ms, k)[i] && mapping_key(ms[j + 1]) != k);
            }
        }
    }
}

/// Dropping a key keeps the remaining keys distinct, and none of them is
/// the dropped one.
pub proof fn lemma_without_key_distinct(ms: Seq<PortMappingView>, k: (u16, MappingProtocol))
    requires
        distinct_keys(ms),
    ensures
        distinct_keys(without_key(ms, k)),
        forall|i: int|
            0 <= i < without_key(ms, k).len() ==> mapping_key(
                #[trigger] without_key(ms, k)[i],
            ) != k,
    decreases ms.len(),
{
    let kept = without_key(ms, k);
    assert forall|i: int| 0 <= i < kept.len() implies mapping_key(#[trigger] kept[i]) != k by {
        lemma_without_key_subset(ms, k, i);
    }
    if ms.len() > 0 {
        lemma_without_key_distinct(ms.drop_first(), k);
        let rest = without_key(ms.drop_first(), k);
        if mapping_key(ms[0]) == k {
        } else {
            assert forall|i: int, j: int|
                0 <= i < j < kept.len() implies mapping_key(#[trigger] kept[i]) != mapping_key(
                #[trigger] kept[j],
            ) by {
                if i == 0 {
                    lemma_without_key_subset(ms.drop_first(), k, j - 1);
                    let j0 = choose|j0: int|
                        0 <= j0 < ms.drop_first().len() && ms.drop_first()[j0] == rest[j - 1]
                            && mapping_key(ms.drop_first()[j0]) != k;
                    assert(ms[j0 + 1] == kept[j]);
                    assert(mapping_key(ms[0]) != mapping_key(ms[j0 + 1]));
                } else {
                    assert(kept[i] == rest[i - 1] && kept[j] == rest[j - 1]);
                }
            }
        }
    }
}

/// After two forwards under different keys are committed to a fresh
/// session, the tracked set holds exactly those two mappings, in order.
/// `close` then hands exactly that set back for removal and clears it, so
/// the caller attempts both removals whatever becomes of the first one.
pub proof fn lemma_two_forwards_track_both(m1: PortMappingView, m2: PortMappingView)
    requires
        mapping_key(m1) != mapping_key(m2),
    ensures
        without_key(
            without_key(Seq::<PortMappingView>::empty(), mapping_key(m1)).push(m1),
            mapping_key(m2),
        ).push(m2) == seq![m1, m2],
{
    let empty = Seq::<PortMappingView>::empty();
    let after_first = without_key(empty, mapping_key(m1)).push(m1);
    assert(after_first =~= seq![m1]);
    assert(after_first[0] == m1);
    assert(after_first.drop_first() =~= empty);
    assert(without_key(empty, mapping_key(m2)) =~= empty);
    assert(without_key(after_first, mapping_key(m2)) =~= seq![m1]);
    assert(without_key(after_first, mapping_key(m2)).push(m2) =~= seq![m1, m2]);
}

/// A gateway session: the set of mappings this process believes the
/// gateway has open on its behalf, keyed by external port and protocol.
#[derive(Debug)]
pub struct GatewaySession {
    mappings: Vec<PortMapping>,
}

impl View for GatewaySession {
    type V = Seq<PortMappingView>;

    closed spec fn view(&self) -> Seq<PortMappingView> {
        self.mappings@.map_values(|m: PortMapping| m@)
    }
}

impl GatewaySession {
    /// The tracked set is honest only while its keys stay unique.
    pub open spec fn well_formed(&self) -> bool {
        distinct_keys(self@)
    }

    /// A fresh session, after the caller's gateway discovery succeeded:
    /// nothing mapped yet.
    pub fn new() -> (s: GatewaySession)
        ensures
            s@ == Seq::<PortMappingView>::empty(),
            s.well_formed(),
    {
        let s = GatewaySession { mappings: Vec::new() };
        proof {
            assert(s@ =~= Seq::<PortMappingView>::empty());
        }
        s
    }

    /// How many mappings the session is tracking.
    pub fn tracked_count(&self) -> (n: usize)
        ensures
            n == self@.len(),
    {
        self.mappings.len()
    }

    /// The mapping request `forward(internal_port, external_port)` puts to
    /// the gateway: TCP, under the fixed description, with a lease on
    /// backends that support one.
    pub fn begin_forward(internal_port: u16, external_port: u16, lease_seconds: Option<u32>) -> (m:
        PortMapping)
        ensures
            m@ == (PortMappingView {
                internal_port,
                external_port,
                protocol: MappingProtocol::Tcp,
                description: forwarding_description(),
                lease_seconds,
            }),
    {
        let m = PortMapping {
            internal_port,
            external_port,
            protocol: MappingProtocol::Tcp,
            description: "MinecraftLAN".to_owned(),
            lease_seconds,
        };
        proof {
            assert(m@ =~= (PortMappingView {
                internal_port,
                external_port,
                protocol: MappingProtocol::Tcp,
                description: forwarding_description(),
                lease_seconds,
            }));
        }
        m
    }

    /// Record a mapping the gateway accepted. Forwarding an external port
    /// that is already tracked is a fresh request: the old entry under the
    /// same key gives way to the new one.
    pub fn commit_forward(&mut self, m: PortMapping)
        requires
            old(self).well_formed(),
        ensures
            final(self)@ == without_key(old(self)@, mapping_key(m@)).push(m@),
            final(self).well_formed(),
    {
        let ghost orig = self@;
        let ghost k = mapping_key(m@);
        let ghost total = orig.len() as int;
        let mut work: Vec<PortMapping> = Vec::new();
        core::mem::swap(&mut self.mappings, &mut work);
        let mut kept: Vec<PortMapping> = Vec::new();
        proof {
            assert(orig.skip(0) =~= orig);
            assert(kept@.map_values(|x: PortMapping| x@) + without_key(orig, k) =~= without_key(
                orig,
                k,
            ));
        }
        while work.len() > 0
            invariant
                total == orig.len(),
                k == mapping_key(m@),
                work@.len() <= total,
                work@.map_values(|x: PortMapping| x@) == orig.skip(total - work@.len()),
                without_key(orig, k) == kept@.map_values(|x: PortMapping| x@) + without_key(
                    orig.skip(total - work@.len()),
                    k,
                ),
            decreases work@.len(),
        {
            let ghost p = total - work@.len();
            let ghost work_prev = work@.map_values(|x: PortMapping| x@);
            let entry = work.remove(0);
            proof {
                assert(orig.skip(p)[0] == orig[p]);
                assert(work_prev[0] == orig[p]);
                assert(work@.map_values(|x: PortMapping| x@) =~= work_prev.remove(0));
                assert(work_prev.remove(0) =~= work_prev.drop_first());
                assert(work_prev.drop_first() =~= orig.skip(p + 1));
            }
            let ghost kept_prev = kept@.map_values(|x: PortMapping| x@);
            let ghost tail = without_key(orig.skip(p + 1), k);
            let same_key = entry.external_port == m.external_port && entry.protocol == m.protocol;
            proof {
                assert(entry@ == orig[p]);
                assert(same_key <==> mapping_key(orig[p]) == k);
            }
            if !same_key {
                kept.push(entry);
                proof {
                    assert(kept_prev + (seq![orig[p]] + tail) =~= kept@.map_values(
                        |x: PortMapping| x@,
                    ) + tail);
                }
            }
        }
        proof {
            assert(orig.skip(total) =~= Seq::<PortMappingView>::empty());
            assert(kept@.map_values(|x: PortMapping| x@) + Seq::<PortMappingView>::empty()
                =~= kept@.map_values(|x: PortMapping| x@));
        }
        let ghost kept_views = kept@.map_values(|x: PortMapping| x@);
        self.mappings = kept;
        self.mappings.push(m);
        proof {
            assert(self@ =~= kept_views.push(m@));
            lemma_without_key_distinct(orig, k);
        }
    }

    /// Hand every tracked mapping back for removal and forget them all.
    /// The caller attempts each removal; failures there change nothing
    /// here, so teardown always covers the full set, and a second close
    /// hands back nothing.
    pub fn close(&mut self) -> (removals: Vec<PortMapping>)
        ensures
            removals@.map_values(|x: PortMapping| x@) == old(self)@,
            final(self)@ == Seq::<PortMappingView>::empty(),
            final(self).well_formed(),
    {
        let mut removals: Vec<PortMapping> = Vec::new();
        core::mem::swap(&mut self.mappings, &mut removals);
        proof {
            assert(self@ =~= Seq::<PortMappingView>::empty());
        }
        removals
    }
}

} // verus!
