use polyresolver::config::{Config, ParseError, Protocol};
use polyresolver::dns_name::DnsName;
use polyresolver::ip_addr::IpAddress;

#[test]
fn test_config_constructor() {
    let valid: Vec<&[u8]> = vec![
        b"domain_name: foo\nforwarders:\n    - 127.0.0.1\n    - 192.168.1.1\nprotocol: udp\n",
        b"domain_name: corp.example.\nforwarders:\n  - 10.0.0.53\n  - 10.0.0.54\nprotocol: udp\n",
        b"domain_name: .\nforwarders:\n- 192.0.2.1\nprotocol: tls\n",
        b"domain_name: bar.\nforwarders:\n- 2001:db8:0:0:0:0:0:1\nprotocol: tcp\n",
    ];
    let mut count = 0;
    for text in &valid {
        assert!(Config::new(text).is_ok());
        count += 1;
    }
    assert!(count > 0);

    let invalid: Vec<&[u8]> = vec![
        b"::: not yaml :::\n",
        b"domain_name: foo\nprotocol: udp\n",
        b"forwarders:\n- 10.0.0.1\nprotocol: udp\n",
        b"domain_name: foo\nforwarders:\nprotocol: udp\n",
        b"domain_name: foo\nforwarders:\n- not-an-address\nprotocol: udp\n",
        b"domain_name: foo\nforwarders:\n- 10.0.0.1\nprotocol: quic\n",
    ];
    count = 0;
    for text in &invalid {
        assert!(Config::new(text).is_err());
        count += 1;
    }
    assert!(count > 0);
}

#[test]
fn parses_the_canonical_document() {
    let text = b"domain_name: corp.example.\nforwarders:\n  - 10.0.0.53\n  - 10.0.0.54\nprotocol: udp\n";
    let c = Config::new(text).unwrap();
    let want = DnsName::parse(b"corp.example.").unwrap();
    assert!(c.domain_name.eq_name(&want));
    assert_eq!(c.forwarders.len(), 2);
    assert_eq!(c.forwarders[0], IpAddress::V4(10, 0, 0, 53));
    assert_eq!(c.forwarders[1], IpAddress::V4(10, 0, 0, 54));
    assert_eq!(c.protocol, Protocol::Udp);
}

#[test]
fn accepts_comments_and_blank_lines() {
    let text = b"\ndomain_name: a.\n# a comment line\nforwarders:\n  - 192.0.2.7\nprotocol: udp    # one of: udp, tcp, tls\n";
    let c = Config::new(text).unwrap();
    assert_eq!(c.protocol, Protocol::Udp);
    assert_eq!(c.forwarders[0], IpAddress::V4(192, 0, 2, 7));
}

#[test]
fn each_error_variant_has_an_input() {
    let cases: Vec<(&[u8], ParseError)> = vec![
        (b"::: not yaml :::\n", ParseError::UnknownField),
        (b"- 10.0.0.1\n", ParseError::MalformedDocument),
        (b"no colon here\n", ParseError::MalformedDocument),
        (b"bogus_key: 1\n", ParseError::UnknownField),
        (
            b"domain_name: a.\ndomain_name: b.\nforwarders:\n- 1.2.3.4\nprotocol: udp\n",
            ParseError::DuplicateField,
        ),
        (b"forwarders:\n- 1.2.3.4\nprotocol: udp\n", ParseError::MissingDomainName),
        (
            b"domain_name: ..\nforwarders:\n- 1.2.3.4\nprotocol: udp\n",
            ParseError::InvalidDomainName,
        ),
        (b"domain_name: a.\nprotocol: udp\n", ParseError::MissingForwarders),
        (b"domain_name: a.\nforwarders:\nprotocol: udp\n", ParseError::EmptyForwarders),
        (
            b"domain_name: a.\nforwarders:\n- 10.0.0.256\nprotocol: udp\n",
            ParseError::InvalidForwarder,
        ),
        (b"domain_name: a.\nforwarders:\n- 10.0.0.1\n", ParseError::MissingProtocol),
        (
            b"domain_name: a.\nforwarders:\n- 10.0.0.1\nprotocol: quic\n",
            ParseError::UnknownProtocol,
        ),
    ];
    for (text, want) in cases {
        match Config::new(text) {
            Err(got) => assert_eq!(got, want),
            Ok(_) => panic!("expected a parse error"),
        }
    }
}

#[test]
fn yaml_round_trip() {
    let texts: Vec<&[u8]> = vec![
        b"domain_name: Corp.Example.\nforwarders:\n  - 10.0.0.53\n  - 10.0.0.54\nprotocol: udp\n",
        b"domain_name: .\nforwarders:\n- 192.0.2.1\nprotocol: tls\n",
        b"domain_name: bar\nforwarders:\n- 2001:db8:0:0:0:0:0:1\n- 1.2.3.4\nprotocol: tcp\n",
    ];
    for text in texts {
        let c = Config::new(text).unwrap();
        let written = c.write_config();
        let c2 = Config::new(written.as_slice()).unwrap();
        assert!(c.domain_name.eq_name(&c2.domain_name));
        assert_eq!(c.forwarders, c2.forwarders);
        assert_eq!(c.protocol, c2.protocol);
        // Writing the reparsed rule gives the same bytes again.
        assert_eq!(written, c2.write_config());
    }
}

#[test]
fn name_parsing_canonicalizes() {
    let n = DnsName::parse(b"FOO.Example.").unwrap();
    assert_eq!(n.to_text(), b"foo.example.".to_vec());
    let bare = DnsName::parse(b"foo.example").unwrap();
    assert!(n.eq_name(&bare));
    assert_eq!(n.label_count(), 2);

    let root = DnsName::parse(b".").unwrap();
    assert!(root.is_root());
    assert_eq!(root.to_text(), b".".to_vec());

    assert!(DnsName::parse(b"").is_none());
    assert!(DnsName::parse(b"a..b").is_none());
    assert!(DnsName::parse(b".a").is_none());
    // One label of 64 bytes is over the limit; 63 is accepted.
    let long63 = vec![b'a'; 63];
    let long64 = vec![b'a'; 64];
    assert!(DnsName::parse(&long63).is_some());
    assert!(DnsName::parse(&long64).is_none());
}

#[test]
fn suffix_matching() {
    let q = DnsName::parse(b"host.internal.example.").unwrap();
    let inner = DnsName::parse(b"internal.example.").unwrap();
    let outer = DnsName::parse(b"example.").unwrap();
    let other = DnsName::parse(b"example.org.").unwrap();
    let root = DnsName::root();
    assert!(inner.is_suffix_of(&q));
    assert!(outer.is_suffix_of(&q));
    assert!(root.is_suffix_of(&q));
    assert!(!other.is_suffix_of(&q));
    assert!(!q.is_suffix_of(&inner));
}

#[test]
fn ip_parsing() {
    assert_eq!(IpAddress::parse(b"10.0.0.53"), Some(IpAddress::V4(10, 0, 0, 53)));
    assert_eq!(IpAddress::parse(b"0.0.0.0"), Some(IpAddress::V4(0, 0, 0, 0)));
    assert_eq!(IpAddress::parse(b"255.255.255.255"), Some(IpAddress::V4(255, 255, 255, 255)));
    assert!(IpAddress::parse(b"10.0.0.256").is_none());
    assert!(IpAddress::parse(b"10.0.0.01").is_none());
    assert!(IpAddress::parse(b"10.0.0").is_none());
    assert!(IpAddress::parse(b"").is_none());
    assert_eq!(
        IpAddress::parse(b"2001:db8:0:0:0:0:0:1"),
        Some(IpAddress::V6(0x2001, 0xdb8, 0, 0, 0, 0, 0, 1)),
    );
    assert!(IpAddress::parse(b"2001:db8:0:0:0:0:1").is_none());
    assert!(IpAddress::parse(b"not-an-address").is_none());
}

#[test]
fn ip_text_round_trip() {
    let v4 = IpAddress::V4(192, 0, 2, 1);
    assert_eq!(v4.to_text(), b"192.0.2.1".to_vec());
    assert_eq!(IpAddress::parse(&v4.to_text()), Some(v4));
    let v6 = IpAddress::V6(0x2001, 0xdb8, 0, 0, 0, 0, 0, 0x1a2b);
    assert_eq!(v6.to_text(), b"2001:db8:0:0:0:0:0:1a2b".to_vec());
    assert_eq!(IpAddress::parse(&v6.to_text()), Some(v6));
}
