//! A Forwarder answers queries for one zone by asking that zone's
//! configured upstreams rather than answering authoritatively.

use vstd::prelude::*;

use crate::config::{Config, ConfigV};
use crate::dns_name::DnsName;
use crate::resolver::{resolver_spec_of, ResolverSpec, ResolverSpecV};

verus! {

/// The only zone kind this server hosts: forwarded, never authoritative,
/// so zone transfers are always refused.
#[derive(Clone, Copy, PartialEq, Eq, Structural, Debug)]
pub enum ZoneType {
    Forward,
}

/// DNS response codes the handler emits.
#[derive(Clone, Copy, PartialEq, Eq, Structural, Debug)]
pub enum ResponseCode {
    NoError,
    ServFail,
    NxDomain,
    NotImp,
    Refused,
}

/// Ghost image of a [`DnsRecord`].
pub ghost struct DnsRecordV {
    pub name: Seq<u8>,
    pub rtype: u16,
    pub ttl: u32,
    pub data: Seq<u8>,
}

/// One resource record as handed back by an upstream, carried through
/// unchanged: the handler never synthesizes or reads record data.
pub struct DnsRecord {
    pub name: Vec<u8>,
    pub rtype: u16,
    pub ttl: u32,
    pub data: Vec<u8>,
}

impl View for DnsRecord {
    type V = DnsRecordV;

    open spec fn view(&self) -> DnsRecordV {
        DnsRecordV { name: self.name@, rtype: self.rtype, ttl: self.ttl, data: self.data@ }
    }
}

/// The record set one upstream lookup returned.
pub struct ForwardLookup(pub Vec<DnsRecord>);

impl View for ForwardLookup {
    type V = Seq<DnsRecordV>;

    open spec fn view(&self) -> Seq<DnsRecordV> {
        self.0@.map(|i: int, r: DnsRecord| r@)
    }
}

impl ForwardLookup {
    /// The lookup returned no records (a NODATA answer).
    pub fn is_empty(&self) -> (r: bool)
        ensures
            r == (self@.len() == 0),
    {
        self.0.len() == 0
    }

    /// The records, in upstream order.
    pub fn records(&self) -> (r: &Vec<DnsRecord>)
        ensures
            r@.map(|i: int, rec: DnsRecord| rec@) == self@,
    {
        &self.0
    }

    /// Additional-section records: never any; the handler does not
    /// synthesize an additional section beyond what the upstream sent.
    pub fn take_additionals(&mut self) -> (r: Option<ForwardLookup>)
        ensures
            r is None,
            final(self)@ == old(self)@,
    {
        None
    }
}

/// Ghost image of a [`Forwarder`].
pub ghost struct ForwarderV {
    pub domain_name: Seq<Seq<u8>>,
    pub resolver: ResolverSpecV,
}

/// The Forwarder a rule builds: the rule's zone as origin, and an
/// upstream resolver configured from the rule.
pub open spec fn forwarder_of(c: ConfigV) -> ForwarderV {
    ForwarderV { domain_name: c.domain_name, resolver: resolver_spec_of(c) }
}

/// The handler for one zone: an origin name and the parameters of the
/// upstream resolver that answers for it. Immutable once built.
pub struct Forwarder {
    pub domain_name: DnsName,
    pub resolver: ResolverSpec,
}

impl View for Forwarder {
    type V = ForwarderV;

    open spec fn view(&self) -> ForwarderV {
        ForwarderV { domain_name: self.domain_name@, resolver: self.resolver@ }
    }
}

impl Forwarder {
    /// Build the zone handler for one rule.
    pub fn from_config(c: &Config) -> (f: Forwarder)
        ensures
            f@ == forwarder_of(c@),
    {
        Forwarder { domain_name: c.domain_name.duplicate(), resolver: c.make_resolvers() }
    }

    /// This server only forwards.
    pub fn zone_type(&self) -> (r: ZoneType)
        ensures
            r == ZoneType::Forward,
    {
        ZoneType::Forward
    }

    /// Zone transfers out of a forwarded zone are never allowed.
    pub fn is_axfr_allowed(&self) -> (r: bool)
        ensures
            !r,
    {
        false
    }

    /// Dynamic updates are never applied to a forwarded zone.
    pub fn update(&self) -> (r: bool)
        ensures
            !r,
    {
        false
    }

    /// The zone this Forwarder answers for.
    pub fn origin(&self) -> (r: &DnsName)
        ensures
            r@ == self@.domain_name,
    {
        &self.domain_name
    }
}

/// What one upstream resolution ended in.
pub enum UpstreamOutcome {
    /// The upstream answered; an empty record set is a NODATA answer.
    Records(ForwardLookup),
    /// The upstream says the name does not exist.
    NxDomain,
    /// No upstream answered within the timeout.
    Timeout,
    /// The transport toward the upstream failed.
    TransportError,
}

/// Ghost image of a [`DnsResponse`].
pub ghost struct DnsResponseV {
    pub rcode: ResponseCode,
    pub answers: Seq<DnsRecordV>,
}

/// The response handed back to the client: a code and the answer records.
pub struct DnsResponse {
    pub rcode: ResponseCode,
    pub answers: Vec<DnsRecord>,
}

impl View for DnsResponse {
    type V = DnsResponseV;

    open spec fn view(&self) -> DnsResponseV {
        DnsResponseV {
            rcode: self.rcode,
            answers: self.answers@.map(|i: int, r: DnsRecord| r@),
        }
    }
}

/// Map an upstream outcome to the DNS-level response: answers pass
/// through as NOERROR (NODATA stays an empty NOERROR), upstream
/// NXDOMAIN passes through, and a timeout or transport failure
/// becomes SERVFAIL with no answers.
pub fn response_for_outcome(outcome: UpstreamOutcome) -> (r: DnsResponse)
    ensures
        match outcome {
            UpstreamOutcome::Records(l) => r@.rcode == ResponseCode::NoError && r@.answers == l@,
            UpstreamOutcome::NxDomain => r@.rcode == ResponseCode::NxDomain && r@.answers.len() == 0,
            UpstreamOutcome::Timeout => r@.rcode == ResponseCode::ServFail && r@.answers.len() == 0,
            UpstreamOutcome::TransportError => r@.rcode == ResponseCode::ServFail && r@.answers.len() == 0,
        },
{
    match outcome {
        UpstreamOutcome::Records(l) => DnsResponse { rcode: ResponseCode::NoError, answers: l.0 },
        UpstreamOutcome::NxDomain => {
            let r = DnsResponse { rcode: ResponseCode::NxDomain, answers: Vec::new() };
            proof {
                assert(r@.answers =~= Seq::<DnsRecordV>::empty());
            }
            r
        },
        UpstreamOutcome::Timeout => {
            let r = DnsResponse { rcode: ResponseCode::ServFail, answers: Vec::new() };
            proof {
                assert(r@.answers =~= Seq::<DnsRecordV>::empty());
            }
            r
        },
        UpstreamOutcome::TransportError => {
            let r = DnsResponse { rcode: ResponseCode::ServFail, answers: Vec::new() };
            proof {
                assert(r@.answers =~= Seq::<DnsRecordV>::empty());
            }
            r
        },
    }
}

} // verus!
