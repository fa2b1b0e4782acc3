//! What the listeners bind: the plan is computed here; the sockets
//! themselves are opened outside the library.

use vstd::prelude::*;

use crate::ip_addr::IpAddress;

verus! {

/// Where the server listens: DNS on port 53 over UDP and TCP, and —
/// only when both a certificate and a key are at hand — DNS over TLS
/// on port 853.
#[derive(Clone, Copy, PartialEq, Eq, Structural, Debug)]
pub struct ListenPlan {
    pub ip: IpAddress,
    pub dns_port: u16,
    pub dot_port: u16,
    pub enable_dot: bool,
    pub tcp_timeout_secs: u64,
}

/// Decide the listening plan: the given address or the local host,
/// DNS on 53, and DoT on 853 exactly when certificate and key are both
/// supplied.
pub fn listen_plan(listen_ip: Option<IpAddress>, has_certs: bool, has_key: bool,
    tcp_timeout_secs: u64) -> (r: ListenPlan)
    ensures
        r.ip == match listen_ip {
            Some(ip) => ip,
            None => IpAddress::V4(127, 0, 0, 1),
        },
        r.dns_port == 53,
        r.dot_port == 853,
        r.enable_dot == (has_certs && has_key),
        r.tcp_timeout_secs == tcp_timeout_secs,
{
    let ip = match listen_ip {
        Some(ip) => ip,
        None => IpAddress::V4(127, 0, 0, 1),
    };
    ListenPlan { ip, dns_port: 53, dot_port: 853, enable_dot: has_certs && has_key, tcp_timeout_secs }
}

} // verus!
