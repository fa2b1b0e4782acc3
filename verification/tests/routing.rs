use polyresolver::catalog::{
    PolyCatalog, RouteDecision, RoutingCatalog, OPCODE_UPDATE, QTYPE_AXFR, QTYPE_IXFR, QTYPE_NSEC,
};
use polyresolver::config::{Config, ConfigUpdate, ConfigWatcher, FsEventKind};
use polyresolver::dns_name::DnsName;
use polyresolver::forwarder::{
    response_for_outcome, DnsRecord, Forwarder, ForwardLookup, ResponseCode, UpstreamOutcome,
    ZoneType,
};
use polyresolver::ip_addr::IpAddress;
use polyresolver::listener::listen_plan;
use polyresolver::resolver::create_resolver;

const QTYPE_A: u16 = 1;
const OPCODE_QUERY: u16 = 0;

fn upsert_from(text: &[u8], filename: &[u8]) -> ConfigUpdate {
    let config = Config::new(text).unwrap();
    ConfigUpdate { config_filename: filename.to_vec(), config: Some(config) }
}

fn remove_of(filename: &[u8]) -> ConfigUpdate {
    ConfigUpdate { config_filename: filename.to_vec(), config: None }
}

fn lookup_addr(pc: &PolyCatalog, name: &[u8]) -> Option<IpAddress> {
    let q = DnsName::parse(name).unwrap();
    pc.catalog().lookup(&q).map(|f| f.resolver.nameservers[0].addr)
}

#[test]
fn startup_scan() {
    let mut pc = PolyCatalog::new();
    pc.sync_catalog(upsert_from(
        b"domain_name: foo.\nforwarders:\n- 192.0.2.1\nprotocol: udp\n",
        b"a.yaml",
    ));
    pc.sync_catalog(upsert_from(
        b"domain_name: bar.\nforwarders:\n- 192.0.2.2\nprotocol: udp\n",
        b"b.yaml",
    ));
    assert_eq!(pc.catalog().len(), 2);
    assert_eq!(lookup_addr(&pc, b"foo."), Some(IpAddress::V4(192, 0, 2, 1)));
    assert_eq!(lookup_addr(&pc, b"bar."), Some(IpAddress::V4(192, 0, 2, 2)));
    assert_eq!(lookup_addr(&pc, b"baz."), None);
    let baz = DnsName::parse(b"baz.").unwrap();
    match pc.handle_request(&baz, QTYPE_A, OPCODE_QUERY) {
        RouteDecision::Respond(code) => assert_eq!(code, ResponseCode::ServFail),
        RouteDecision::Forward(_) => panic!("an unroutable query must not forward"),
    }
}

#[test]
fn hot_reload() {
    let mut pc = PolyCatalog::new();
    pc.sync_catalog(upsert_from(
        b"domain_name: foo.\nforwarders:\n- 192.0.2.1\nprotocol: udp\n",
        b"a.yaml",
    ));
    assert_eq!(lookup_addr(&pc, b"baz."), None);
    pc.sync_catalog(upsert_from(
        b"domain_name: baz.\nforwarders:\n- 192.0.2.3\nprotocol: udp\n",
        b"c.yaml",
    ));
    assert_eq!(lookup_addr(&pc, b"baz."), Some(IpAddress::V4(192, 0, 2, 3)));
}

#[test]
fn deletion() {
    let mut pc = PolyCatalog::new();
    pc.sync_catalog(upsert_from(
        b"domain_name: foo.\nforwarders:\n- 192.0.2.1\nprotocol: udp\n",
        b"a.yaml",
    ));
    pc.sync_catalog(upsert_from(
        b"domain_name: bar.\nforwarders:\n- 192.0.2.2\nprotocol: udp\n",
        b"b.yaml",
    ));
    pc.sync_catalog(remove_of(b"a.yaml"));
    assert_eq!(lookup_addr(&pc, b"foo."), None);
    assert_eq!(lookup_addr(&pc, b"bar."), Some(IpAddress::V4(192, 0, 2, 2)));
}

#[test]
fn longest_suffix_match() {
    let mut pc = PolyCatalog::new();
    pc.sync_catalog(upsert_from(
        b"domain_name: example.\nforwarders:\n- 192.0.2.10\nprotocol: udp\n",
        b"outer.yaml",
    ));
    pc.sync_catalog(upsert_from(
        b"domain_name: internal.example.\nforwarders:\n- 192.0.2.20\nprotocol: udp\n",
        b"inner.yaml",
    ));
    assert_eq!(lookup_addr(&pc, b"host.internal.example."), Some(IpAddress::V4(192, 0, 2, 20)));
    assert_eq!(lookup_addr(&pc, b"host.example."), Some(IpAddress::V4(192, 0, 2, 10)));
}

#[test]
fn parse_error_is_non_fatal() {
    let mut pc = PolyCatalog::new();
    let watcher = ConfigWatcher::new(b"confdir".to_vec());
    assert!(watcher.wants_load(FsEventKind::Write, false));
    assert!(!watcher.wants_load(FsEventKind::Write, true));
    assert!(!watcher.wants_load(FsEventKind::Remove, false));
    assert!(watcher.wants_remove(FsEventKind::Remove));

    let broken = watcher.update_for_write(b"broken.yaml".to_vec(), b"::: not yaml :::\n");
    assert!(broken.is_none());
    assert_eq!(pc.catalog().len(), 0);

    let fixed = watcher
        .update_for_write(
            b"broken.yaml".to_vec(),
            b"domain_name: fixed.\nforwarders:\n- 192.0.2.9\nprotocol: udp\n",
        )
        .unwrap();
    pc.sync_catalog(fixed);
    assert_eq!(lookup_addr(&pc, b"fixed."), Some(IpAddress::V4(192, 0, 2, 9)));
}

#[test]
fn axfr_rejected() {
    let mut pc = PolyCatalog::new();
    pc.sync_catalog(upsert_from(
        b"domain_name: foo.\nforwarders:\n- 192.0.2.1\nprotocol: udp\n",
        b"a.yaml",
    ));
    let q = DnsName::parse(b"foo.").unwrap();
    match pc.handle_request(&q, QTYPE_AXFR, OPCODE_QUERY) {
        RouteDecision::Respond(code) => {
            assert!(code != ResponseCode::NoError);
            assert_eq!(code, ResponseCode::Refused);
        },
        RouteDecision::Forward(_) => panic!("a zone transfer must not forward"),
    }
    match pc.handle_request(&q, QTYPE_IXFR, OPCODE_QUERY) {
        RouteDecision::Respond(code) => assert_eq!(code, ResponseCode::Refused),
        RouteDecision::Forward(_) => panic!("a zone transfer must not forward"),
    }
    // The catalog is unaffected.
    assert_eq!(lookup_addr(&pc, b"foo."), Some(IpAddress::V4(192, 0, 2, 1)));
}

#[test]
fn update_and_nsec_rejected() {
    let mut pc = PolyCatalog::new();
    pc.sync_catalog(upsert_from(
        b"domain_name: foo.\nforwarders:\n- 192.0.2.1\nprotocol: udp\n",
        b"a.yaml",
    ));
    let q = DnsName::parse(b"foo.").unwrap();
    match pc.handle_request(&q, QTYPE_A, OPCODE_UPDATE) {
        RouteDecision::Respond(code) => assert_eq!(code, ResponseCode::NotImp),
        RouteDecision::Forward(_) => panic!("an update must not forward"),
    }
    match pc.handle_request(&q, QTYPE_NSEC, OPCODE_QUERY) {
        RouteDecision::Respond(code) => assert_eq!(code, ResponseCode::ServFail),
        RouteDecision::Forward(_) => panic!("an NSEC query must not forward"),
    }
    match pc.handle_request(&q, QTYPE_A, OPCODE_QUERY) {
        RouteDecision::Forward(f) => {
            assert!(f.origin().eq_name(&q));
        },
        RouteDecision::Respond(_) => panic!("a routable query must forward"),
    }
}

#[test]
fn empty_directory_means_servfail() {
    let pc = PolyCatalog::new();
    let q = DnsName::parse(b"anything.at.all.").unwrap();
    match pc.handle_request(&q, QTYPE_A, OPCODE_QUERY) {
        RouteDecision::Respond(code) => assert_eq!(code, ResponseCode::ServFail),
        RouteDecision::Forward(_) => panic!("nothing is routable in an empty catalog"),
    }
}

#[test]
fn root_is_default_route() {
    let mut pc = PolyCatalog::new();
    pc.sync_catalog(upsert_from(
        b"domain_name: .\nforwarders:\n- 192.0.2.53\nprotocol: udp\n",
        b"default.yaml",
    ));
    assert_eq!(lookup_addr(&pc, b"whatever.example."), Some(IpAddress::V4(192, 0, 2, 53)));
    pc.sync_catalog(upsert_from(
        b"domain_name: corp.\nforwarders:\n- 192.0.2.99\nprotocol: udp\n",
        b"corp.yaml",
    ));
    // A more specific zone wins over the default.
    assert_eq!(lookup_addr(&pc, b"a.corp."), Some(IpAddress::V4(192, 0, 2, 99)));
    assert_eq!(lookup_addr(&pc, b"other."), Some(IpAddress::V4(192, 0, 2, 53)));
}

#[test]
fn same_domain_last_upsert_wins() {
    let mut pc = PolyCatalog::new();
    pc.sync_catalog(upsert_from(
        b"domain_name: shared.\nforwarders:\n- 192.0.2.1\nprotocol: udp\n",
        b"first.yaml",
    ));
    pc.sync_catalog(upsert_from(
        b"domain_name: shared.\nforwarders:\n- 192.0.2.2\nprotocol: udp\n",
        b"second.yaml",
    ));
    assert_eq!(lookup_addr(&pc, b"shared."), Some(IpAddress::V4(192, 0, 2, 2)));
    // Removing the winner restores no predecessor.
    pc.sync_catalog(remove_of(b"second.yaml"));
    assert_eq!(lookup_addr(&pc, b"shared."), None);
}

#[test]
fn upsert_is_idempotent() {
    let mut pc = PolyCatalog::new();
    let text: &[u8] = b"domain_name: foo.\nforwarders:\n- 192.0.2.1\nprotocol: udp\n";
    pc.sync_catalog(upsert_from(text, b"a.yaml"));
    pc.sync_catalog(upsert_from(text, b"a.yaml"));
    assert_eq!(pc.catalog().len(), 1);
    assert_eq!(lookup_addr(&pc, b"foo."), Some(IpAddress::V4(192, 0, 2, 1)));
}

#[test]
fn upsert_remove_upsert_restores() {
    let mut pc = PolyCatalog::new();
    let text: &[u8] = b"domain_name: foo.\nforwarders:\n- 192.0.2.1\nprotocol: udp\n";
    pc.sync_catalog(upsert_from(text, b"a.yaml"));
    pc.sync_catalog(remove_of(b"a.yaml"));
    assert_eq!(lookup_addr(&pc, b"foo."), None);
    pc.sync_catalog(upsert_from(text, b"a.yaml"));
    assert_eq!(pc.catalog().len(), 1);
    assert_eq!(lookup_addr(&pc, b"foo."), Some(IpAddress::V4(192, 0, 2, 1)));
}

#[test]
fn rename_drops_the_old_zone() {
    let mut pc = PolyCatalog::new();
    pc.sync_catalog(upsert_from(
        b"domain_name: old.\nforwarders:\n- 192.0.2.1\nprotocol: udp\n",
        b"a.yaml",
    ));
    pc.sync_catalog(upsert_from(
        b"domain_name: new.\nforwarders:\n- 192.0.2.1\nprotocol: udp\n",
        b"a.yaml",
    ));
    assert_eq!(lookup_addr(&pc, b"old."), None);
    assert_eq!(lookup_addr(&pc, b"new."), Some(IpAddress::V4(192, 0, 2, 1)));
}

#[test]
fn test_config_watcher() {
    // The decision core of directory watching: one update per file
    // scanned at startup, and one per later change.
    let watcher = ConfigWatcher::new(b"polyresolver_config".to_vec());
    assert_eq!(watcher.dir(), &b"polyresolver_config".to_vec());
    let scanned = watcher.update_for_write(
        b"one.yaml".to_vec(),
        b"domain_name: foo\nforwarders:\n    - 127.0.0.1\n    - 192.168.1.1\nprotocol: udp\n",
    );
    let upd = scanned.unwrap();
    assert_eq!(upd.config_filename, b"one.yaml".to_vec());
    let config = upd.config.unwrap();
    assert_eq!(config.forwarders.len(), 2);
    assert_eq!(config.forwarders[0], IpAddress::V4(127, 0, 0, 1));
    assert_eq!(config.forwarders[1], IpAddress::V4(192, 168, 1, 1));

    let removed = watcher.update_for_remove(b"one.yaml".to_vec());
    assert!(removed.config.is_none());
    assert_eq!(removed.config_filename, b"one.yaml".to_vec());
}

#[test]
fn resolver_factory_pins_the_options() {
    let spec = create_resolver(
        vec![IpAddress::V4(10, 0, 0, 53), IpAddress::V4(10, 0, 0, 54)],
        Vec::new(),
        polyresolver::config::Protocol::Tcp,
    );
    assert_eq!(spec.timeout_secs, 1);
    assert_eq!(spec.cache_size, 0);
    assert!(spec.rotate);
    assert!(!spec.use_hosts_file);
    assert_eq!(spec.positive_min_ttl_secs, 0);
    assert_eq!(spec.positive_max_ttl_secs, 0);
    assert_eq!(spec.negative_min_ttl_secs, 0);
    assert_eq!(spec.negative_max_ttl_secs, 0);
    assert!(spec.search_names.is_empty());
    assert_eq!(spec.nameservers.len(), 2);
    for ns in &spec.nameservers {
        assert_eq!(ns.port, 53);
        assert_eq!(ns.protocol, polyresolver::config::Protocol::Tcp);
        assert!(ns.trust_negative_responses);
    }
    assert_eq!(spec.nameservers[0].addr, IpAddress::V4(10, 0, 0, 53));
    assert_eq!(spec.nameservers[1].addr, IpAddress::V4(10, 0, 0, 54));
}

#[test]
fn forwarder_refuses_what_it_must() {
    let c = Config::new(b"domain_name: foo.\nforwarders:\n- 192.0.2.1\nprotocol: udp\n").unwrap();
    let f = Forwarder::from_config(&c);
    assert_eq!(f.zone_type(), ZoneType::Forward);
    assert!(!f.is_axfr_allowed());
    assert!(!f.update());
    assert!(f.origin().eq_name(&c.domain_name));
}

#[test]
fn responses_for_upstream_outcomes() {
    let rec = DnsRecord { name: b"foo.".to_vec(), rtype: 1, ttl: 60, data: vec![192, 0, 2, 1] };
    let full = response_for_outcome(UpstreamOutcome::Records(ForwardLookup(vec![rec])));
    assert_eq!(full.rcode, ResponseCode::NoError);
    assert_eq!(full.answers.len(), 1);
    assert_eq!(full.answers[0].data, vec![192, 0, 2, 1]);

    let mut nodata_set = ForwardLookup(Vec::new());
    assert!(nodata_set.is_empty());
    assert!(nodata_set.take_additionals().is_none());
    let nodata = response_for_outcome(UpstreamOutcome::Records(nodata_set));
    assert_eq!(nodata.rcode, ResponseCode::NoError);
    assert!(nodata.answers.is_empty());

    let nx = response_for_outcome(UpstreamOutcome::NxDomain);
    assert_eq!(nx.rcode, ResponseCode::NxDomain);
    assert!(nx.answers.is_empty());

    let timeout = response_for_outcome(UpstreamOutcome::Timeout);
    assert_eq!(timeout.rcode, ResponseCode::ServFail);

    let transport = response_for_outcome(UpstreamOutcome::TransportError);
    assert_eq!(transport.rcode, ResponseCode::ServFail);
}

#[test]
fn listener_plan() {
    let default_plan = listen_plan(None, false, false, 1);
    assert_eq!(default_plan.ip, IpAddress::V4(127, 0, 0, 1));
    assert_eq!(default_plan.dns_port, 53);
    assert!(!default_plan.enable_dot);
    assert_eq!(default_plan.tcp_timeout_secs, 1);

    let dot_plan = listen_plan(Some(IpAddress::V4(0, 0, 0, 0)), true, true, 1);
    assert_eq!(dot_plan.ip, IpAddress::V4(0, 0, 0, 0));
    assert!(dot_plan.enable_dot);
    assert_eq!(dot_plan.dot_port, 853);

    let half = listen_plan(None, true, false, 1);
    assert!(!half.enable_dot);
}

#[test]
fn direct_catalog_operations() {
    let mut cat = RoutingCatalog::new();
    let c = Config::new(b"domain_name: foo.\nforwarders:\n- 192.0.2.1\nprotocol: udp\n").unwrap();
    let name = c.domain_name.duplicate();
    cat.upsert(c.domain_name.duplicate(), Forwarder::from_config(&c));
    assert_eq!(cat.len(), 1);
    assert!(cat.get_exact(&name).is_some());
    let q = DnsName::parse(b"www.foo.").unwrap();
    assert!(cat.lookup(&q).is_some());
    cat.remove(&name);
    assert_eq!(cat.len(), 0);
    assert!(cat.get_exact(&name).is_none());
    // Removing an absent name is a no-op.
    cat.remove(&name);
    assert_eq!(cat.len(), 0);
}
