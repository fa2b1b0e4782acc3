//! The zone-file format: a flat document of three fields, one per
//! line, with `- ` items under `forwarders`, comments after `#`, and
//! blank lines ignored.
//!
//! ```text
//! domain_name: corp.example.
//! forwarders:
//!   - 10.0.0.53
//!   - 10.0.0.54
//! protocol: udp
//! ```

use vstd::prelude::*;

use crate::bytes::{
    bytes_eq, clean, clean_line, comment_start, is_ws, lemma_comment_char, lemma_sep_end_char,
    lemma_split_prefix, lemma_trim_id, lemma_ws_front_char, sep_end, split_on, split_on_byte,
    trim, trim_sub, ws_back,
};
use crate::config::{Config, ConfigV, ParseError, Protocol};
use crate::dns_name::{
    labels_dotted, lemma_name_round_trip, name_byte_ok, name_ok, name_text, parse_name, DnsName,
};
use crate::ip_addr::{
    dec_join, hex_join, ip_groups, ip_text, is_digit, is_hex_digit, lemma_dec_text_props,
    lemma_hex_text_props, lemma_ip_round_trip, parse_ip, IpAddress,
};

verus! {

/// The bytes of the key `domain_name`.
pub open spec fn key_domain() -> Seq<u8> {
    seq![100u8, 111, 109, 97, 105, 110, 95, 110, 97, 109, 101]
}

/// The bytes of the key `forwarders`.
pub open spec fn key_forwarders() -> Seq<u8> {
    seq![102u8, 111, 114, 119, 97, 114, 100, 101, 114, 115]
}

/// The bytes of the key `protocol`.
pub open spec fn key_protocol() -> Seq<u8> {
    seq![112u8, 114, 111, 116, 111, 99, 111, 108]
}

/// The bytes of a protocol token.
pub open spec fn proto_tok(p: Protocol) -> Seq<u8> {
    match p {
        Protocol::Udp => seq![117u8, 100, 112],
        Protocol::Tcp => seq![116u8, 99, 112],
        Protocol::Tls => seq![116u8, 108, 115],
    }
}

/// What one cleaned line is.
pub ghost enum LineKind {
    /// Nothing but blanks or a comment.
    Blank,
    /// A `- value` list item.
    Item(Seq<u8>),
    /// A `key: value` pair.
    KeyVal(Seq<u8>, Seq<u8>),
    /// None of these.
    Bad,
}

/// Classify one cleaned line.
pub open spec fn classify(l: Seq<u8>) -> LineKind {
    if l.len() == 0 {
        LineKind::Blank
    } else if l[0] == 45 {
        if l.len() >= 2 && is_ws(l[1]) {
            LineKind::Item(trim(l.skip(2)))
        } else {
            LineKind::Bad
        }
    } else {
        let c = sep_end(l, 0, 58);
        if c >= l.len() {
            LineKind::Bad
        } else {
            LineKind::KeyVal(l.take(c), trim(l.skip(c + 1)))
        }
    }
}

/// The fields gathered while walking the document.
pub ghost struct ScanState {
    pub domain: Option<Seq<u8>>,
    pub fwd: Option<Seq<Seq<u8>>>,
    pub proto: Option<Seq<u8>>,
    /// List items are accepted only directly under `forwarders:`.
    pub in_fwd: bool,
}

/// The empty scan state.
pub open spec fn scan_init() -> ScanState {
    ScanState { domain: None, fwd: None, proto: None, in_fwd: false }
}

/// Take one line: keys fill their fields once each, items extend the
/// forwarder list while it is open, anything else is malformed.
pub open spec fn scan_step(st: ScanState, k: LineKind) -> Result<ScanState, ParseError> {
    match k {
        LineKind::Blank => Ok(st),
        LineKind::Bad => Err(ParseError::MalformedDocument),
        LineKind::Item(p) => if st.in_fwd && st.fwd is Some {
            Ok(
                ScanState {
                    domain: st.domain,
                    fwd: Some(st.fwd->Some_0.push(p)),
                    proto: st.proto,
                    in_fwd: true,
                },
            )
        } else {
            Err(ParseError::MalformedDocument)
        },
        LineKind::KeyVal(key, v) => if key == key_domain() {
            if st.domain is Some {
                Err(ParseError::DuplicateField)
            } else {
                Ok(ScanState { domain: Some(v), fwd: st.fwd, proto: st.proto, in_fwd: false })
            }
        } else if key == key_forwarders() {
            if st.fwd is Some {
                Err(ParseError::DuplicateField)
            } else if v.len() > 0 {
                Err(ParseError::MalformedDocument)
            } else {
                Ok(
                    ScanState {
                        domain: st.domain,
                        fwd: Some(Seq::empty()),
                        proto: st.proto,
                        in_fwd: true,
                    },
                )
            }
        } else if key == key_protocol() {
            if st.proto is Some {
                Err(ParseError::DuplicateField)
            } else {
                Ok(ScanState { domain: st.domain, fwd: st.fwd, proto: Some(v), in_fwd: false })
            }
        } else {
            Err(ParseError::UnknownField)
        },
    }
}

/// Walk the document's lines.
pub open spec fn scan(lines: Seq<Seq<u8>>, st: ScanState) -> Result<ScanState, ParseError>
    decreases lines.len(),
{
    if lines.len() == 0 {
        Ok(st)
    } else {
        match scan_step(st, classify(clean(lines[0]))) {
            Ok(s2) => scan(lines.drop_first(), s2),
            Err(e) => Err(e),
        }
    }
}

/// Parse every forwarder item as an address.
pub open spec fn parse_ip_list(items: Seq<Seq<u8>>) -> Option<Seq<IpAddress>>
    decreases items.len(),
{
    if items.len() == 0 {
        Some(Seq::empty())
    } else {
        match parse_ip(items[0]) {
            None => None,
            Some(ip) => match parse_ip_list(items.drop_first()) {
                None => None,
                Some(rest) => Some(seq![ip] + rest),
            },
        }
    }
}

/// Validate the gathered fields, in order: the zone name, then the
/// forwarder list, then the protocol token.
pub open spec fn finalize(st: ScanState) -> Result<ConfigV, ParseError> {
    match st.domain {
        None => Err(ParseError::MissingDomainName),
        Some(dt) => match parse_name(dt) {
            None => Err(ParseError::InvalidDomainName),
            Some(dn) => match st.fwd {
                None => Err(ParseError::MissingForwarders),
                Some(items) => if items.len() == 0 {
                    Err(ParseError::EmptyForwarders)
                } else {
                    match parse_ip_list(items) {
                        None => Err(ParseError::InvalidForwarder),
                        Some(ips) => match st.proto {
                            None => Err(ParseError::MissingProtocol),
                            Some(pt) => if pt == proto_tok(Protocol::Udp) {
                                Ok(
                                    ConfigV {
                                        domain_name: dn,
                                        forwarders: ips,
                                        protocol: Protocol::Udp,
                                    },
                                )
                            } else if pt == proto_tok(Protocol::Tcp) {
                                Ok(
                                    ConfigV {
                                        domain_name: dn,
                                        forwarders: ips,
                                        protocol: Protocol::Tcp,
                                    },
                                )
                            } else if pt == proto_tok(Protocol::Tls) {
                                Ok(
                                    ConfigV {
                                        domain_name: dn,
                                        forwarders: ips,
                                        protocol: Protocol::Tls,
                                    },
                                )
                            } else {
                                Err(ParseError::UnknownProtocol)
                            },
                        },
                    }
                },
            },
        },
    }
}

/// What one zone file's bytes denote: a validated rule, or the first
/// reason the file is rejected.
pub open spec fn parse_config(text: Seq<u8>) -> Result<ConfigV, ParseError> {
    match scan(split_on(text, 0, 10), scan_init()) {
        Ok(st) => finalize(st),
        Err(e) => Err(e),
    }
}

/// The document's tail from forwarder `i` on: the remaining item
/// lines, then the protocol line.
pub open spec fn tail_lines(c: ConfigV, i: int) -> Seq<u8>
    decreases c.forwarders.len() - i,
{
    if 0 <= i < c.forwarders.len() {
        seq![45u8, 32] + ip_text(c.forwarders[i]) + seq![10u8] + tail_lines(c, i + 1)
    } else {
        key_protocol() + seq![58u8, 32] + proto_tok(c.protocol) + seq![10u8]
    }
}

/// The canonical text of a rule.
pub open spec fn emit_config(c: ConfigV) -> Seq<u8> {
    key_domain() + seq![58u8, 32] + name_text(c.domain_name) + seq![10u8] + (key_forwarders()
        + seq![58u8, 10] + tail_lines(c, 0))
}

/// The bytes of the key `domain_name`.
fn key_domain_vec() -> (r: Vec<u8>)
    ensures
        r@ == key_domain(),
{
    let mut v: Vec<u8> = Vec::new();
    v.push(100);
    v.push(111);
    v.push(109);
    v.push(97);
    v.push(105);
    v.push(110);
    v.push(95);
    v.push(110);
    v.push(97);
    v.push(109);
    v.push(101);
    proof {
        assert(v@ =~= key_domain());
    }
    v
}

/// The bytes of the key `forwarders`.
fn key_forwarders_vec() -> (r: Vec<u8>)
    ensures
        r@ == key_forwarders(),
{
    let mut v: Vec<u8> = Vec::new();
    v.push(102);
    v.push(111);
    v.push(114);
    v.push(119);
    v.push(97);
    v.push(114);
    v.push(100);
    v.push(101);
    v.push(114);
    v.push(115);
    proof {
        assert(v@ =~= key_forwarders());
    }
    v
}

/// The bytes of the key `protocol`.
fn key_protocol_vec() -> (r: Vec<u8>)
    ensures
        r@ == key_protocol(),
{
    let mut v: Vec<u8> = Vec::new();
    v.push(112);
    v.push(114);
    v.push(111);
    v.push(116);
    v.push(111);
    v.push(99);
    v.push(111);
    v.push(108);
    proof {
        assert(v@ =~= key_protocol());
    }
    v
}

/// The bytes of a protocol token.
fn proto_tok_vec(p: Protocol) -> (r: Vec<u8>)
    ensures
        r@ == proto_tok(p),
{
    let mut v: Vec<u8> = Vec::new();
    match p {
        Protocol::Udp => {
            v.push(117);
            v.push(100);
            v.push(112);
        },
        Protocol::Tcp => {
            v.push(116);
            v.push(99);
            v.push(112);
        },
        Protocol::Tls => {
            v.push(116);
            v.push(108);
            v.push(115);
        },
    }
    proof {
        assert(v@ =~= proto_tok(p));
    }
    v
}

impl Config {
    /// Parse one zone file's contents into a validated rule, or say
    /// why the file is rejected. The file is then skipped and logged;
    /// a parse failure is never fatal.
    #[verifier::loop_isolation(false)]
    pub fn new(text: &[u8]) -> (r: Result<Config, ParseError>)
        ensures
            match r {
                Ok(c) => parse_config(text@) == Ok::<ConfigV, ParseError>(c@) && c.wf(),
                Err(e) => parse_config(text@) == Err::<ConfigV, ParseError>(e),
            },
    {
        let lines = split_on_byte(text, 10);
        let ghost lv = split_on(text@, 0, 10);
        let mut domain: Option<Vec<u8>> = None;
        let mut fwd: Option<Vec<Vec<u8>>> = None;
        let mut proto: Option<Vec<u8>> = None;
        let mut in_fwd: bool = false;
        let ghost mut stv = scan_init();
        proof {
            assert(lv.skip(0) =~= lv);
        }
        let mut i: usize = 0;
        while i < lines.len()
            invariant
                0 <= i <= lines@.len(),
                scan(lv, scan_init()) == scan(lv.skip(i as int), stv),
                stv.domain == match domain {
                    Some(d) => Some(d@),
                    None => None::<Seq<u8>>,
                },
                stv.fwd == match fwd {
                    Some(f) => Some(f@.map(|x: int, p: Vec<u8>| p@)),
                    None => None::<Seq<Seq<u8>>>,
                },
                stv.proto == match proto {
                    Some(p) => Some(p@),
                    None => None::<Seq<u8>>,
                },
                stv.in_fwd == in_fwd,
            decreases lines@.len() - i,
        {
            proof {
                assert(lv.skip(i as int)[0] == lv[i as int]);
                assert(lv.skip(i as int).drop_first() =~= lv.skip(i + 1));
            }
            let cl = clean_line(&lines[i]);
            let ghost kind = classify(clean(lv[i as int]));
            if cl.len() == 0 {
                proof {
                    assert(kind is Blank);
                }
            } else if cl[0] == 45 {
                if cl.len() >= 2 && (cl[1] == 32 || cl[1] == 9 || cl[1] == 13) {
                    let payload = trim_sub(&cl, 2);
                    proof {
                        assert(kind == LineKind::Item(trim(clean(lv[i as int]).skip(2))));
                    }
                    if in_fwd && fwd.is_some() {
                        let mut items = fwd.unwrap();
                        let ghost old_items = items@.map(|x: int, p: Vec<u8>| p@);
                        items.push(payload);
                        proof {
                            assert(items@.map(|x: int, p: Vec<u8>| p@) =~= old_items.push(
                                trim(clean(lv[i as int]).skip(2)),
                            ));
                        }
                        fwd = Some(items);
                        proof {
                            stv = scan_step(stv, kind)->Ok_0;
                        }
                    } else {
                        return Err(ParseError::MalformedDocument);
                    }
                } else {
                    return Err(ParseError::MalformedDocument);
                }
            } else {
                let mut e: usize = 0;
                while e < cl.len() && cl[e] != 58
                    invariant
                        0 <= e <= cl@.len(),
                        forall|j: int| 0 <= j < e ==> cl@[j] != 58,
                    decreases cl@.len() - e,
                {
                    e += 1;
                }
                proof {
                    crate::bytes::lemma_sep_end_char(cl@, 0, e as int, 58);
                }
                if e == cl.len() {
                    return Err(ParseError::MalformedDocument);
                }
                let mut key: Vec<u8> = Vec::new();
                let mut k: usize = 0;
                while k < e
                    invariant
                        0 <= k <= e <= cl@.len(),
                        key@ =~= cl@.take(e as int).take(k as int),
                    decreases e - k,
                {
                    key.push(cl[k]);
                    k += 1;
                }
                proof {
                    assert(key@ =~= cl@.take(e as int));
                }
                let value = trim_sub(&cl, e + 1);
                if bytes_eq(key.as_slice(), key_domain_vec().as_slice()) {
                    if domain.is_some() {
                        return Err(ParseError::DuplicateField);
                    }
                    domain = Some(value);
                    in_fwd = false;
                    proof {
                        stv = scan_step(stv, kind)->Ok_0;
                    }
                } else if bytes_eq(key.as_slice(), key_forwarders_vec().as_slice()) {
                    if fwd.is_some() {
                        return Err(ParseError::DuplicateField);
                    }
                    if value.len() > 0 {
                        return Err(ParseError::MalformedDocument);
                    }
                    let fresh: Vec<Vec<u8>> = Vec::new();
                    proof {
                        assert(fresh@.map(|x: int, p: Vec<u8>| p@) =~= Seq::<Seq<u8>>::empty());
                    }
                    fwd = Some(fresh);
                    in_fwd = true;
                    proof {
                        stv = scan_step(stv, kind)->Ok_0;
                        assert(stv.fwd == Some(Seq::<Seq<u8>>::empty()));
                    }
                } else if bytes_eq(key.as_slice(), key_protocol_vec().as_slice()) {
                    if proto.is_some() {
                        return Err(ParseError::DuplicateField);
                    }
                    proto = Some(value);
                    in_fwd = false;
                    proof {
                        stv = scan_step(stv, kind)->Ok_0;
                    }
                } else {
                    return Err(ParseError::UnknownField);
                }
            }
            i += 1;
        }
        proof {
            assert(lv.skip(lv.len() as int) =~= Seq::<Seq<u8>>::empty());
            assert(scan(lv, scan_init()) == Ok::<ScanState, ParseError>(stv));
        }
        // The fields are all gathered; validate them in order.
        let dt = match domain {
            Some(d) => d,
            None => {
                return Err(ParseError::MissingDomainName);
            },
        };
        let dn = match DnsName::parse(dt.as_slice()) {
            Some(n) => n,
            None => {
                return Err(ParseError::InvalidDomainName);
            },
        };
        let items = match fwd {
            Some(f) => f,
            None => {
                return Err(ParseError::MissingForwarders);
            },
        };
        if items.len() == 0 {
            proof {
                assert(stv.fwd->Some_0 =~= Seq::<Seq<u8>>::empty());
            }
            return Err(ParseError::EmptyForwarders);
        }
        let ghost itemsv = items@.map(|x: int, p: Vec<u8>| p@);
        let mut ips: Vec<IpAddress> = Vec::new();
        let mut k: usize = 0;
        while k < items.len()
            invariant
                0 <= k <= items@.len(),
                itemsv == items@.map(|x: int, p: Vec<u8>| p@),
                ips@.len() == k,
                forall|x: int| 0 <= x < k ==> parse_ip(#[trigger] itemsv[x]) == Some(ips@[x]),
            decreases items@.len() - k,
        {
            match IpAddress::parse(items[k].as_slice()) {
                Some(ip) => {
                    ips.push(ip);
                },
                None => {
                    proof {
                        lemma_ip_list_fail(itemsv, k as int);
                    }
                    return Err(ParseError::InvalidForwarder);
                },
            }
            k += 1;
        }
        proof {
            lemma_ip_list_ok(itemsv, ips@);
        }
        let proto_bytes = match proto {
            Some(p) => p,
            None => {
                return Err(ParseError::MissingProtocol);
            },
        };
        let protocol = if bytes_eq(proto_bytes.as_slice(), proto_tok_vec(Protocol::Udp).as_slice()) {
            Protocol::Udp
        } else if bytes_eq(proto_bytes.as_slice(), proto_tok_vec(Protocol::Tcp).as_slice()) {
            Protocol::Tcp
        } else if bytes_eq(proto_bytes.as_slice(), proto_tok_vec(Protocol::Tls).as_slice()) {
            Protocol::Tls
        } else {
            return Err(ParseError::UnknownProtocol);
        };
        let c = Config { domain_name: dn, forwarders: ips, protocol };
        Ok(c)
    }
}

/// A list with an unparsable item parses to nothing.
proof fn lemma_ip_list_fail(items: Seq<Seq<u8>>, i: int)
    requires
        0 <= i < items.len(),
        parse_ip(items[i]) is None,
    ensures
        parse_ip_list(items) is None,
    decreases items.len(),
{
    if items.len() == 0 {
    } else if i == 0 {
    } else {
        assert(items.drop_first()[i - 1] == items[i]);
        lemma_ip_list_fail(items.drop_first(), i - 1);
    }
}

/// A list whose items all parse parses to exactly those addresses.
proof fn lemma_ip_list_ok(items: Seq<Seq<u8>>, ips: Seq<IpAddress>)
    requires
        items.len() == ips.len(),
        forall|x: int| 0 <= x < items.len() ==> parse_ip(#[trigger] items[x]) == Some(ips[x]),
    ensures
        parse_ip_list(items) == Some(ips),
    decreases items.len(),
{
    if items.len() == 0 {
        assert(ips =~= Seq::<IpAddress>::empty());
    } else {
        assert forall|x: int| 0 <= x < items.drop_first().len() implies parse_ip(
            #[trigger] items.drop_first()[x],
        ) == Some(ips.drop_first()[x]) by {
            assert(items.drop_first()[x] == items[x + 1]);
            assert(ips.drop_first()[x] == ips[x + 1]);
        }
        lemma_ip_list_ok(items.drop_first(), ips.drop_first());
        assert(seq![ips[0]] + ips.drop_first() =~= ips);
    }
}

impl Config {
    /// The canonical text of this rule, parseable back to it.
    pub fn write_config(&self) -> (r: Vec<u8>)
        ensures
            r@ == emit_config(self@),
    {
        let ghost cv = self@;
        let mut out = key_domain_vec();
        out.push(58);
        out.push(32);
        let mut nt = self.domain_name.to_text();
        out.append(&mut nt);
        out.push(10);
        let mut fk = key_forwarders_vec();
        out.append(&mut fk);
        out.push(58);
        out.push(10);
        let ghost header = out@;
        proof {
            assert(header =~= key_domain() + seq![58u8, 32] + name_text(cv.domain_name) + seq![
                10u8,
            ] + (key_forwarders() + seq![58u8, 10]));
        }
        let mut k: usize = 0;
        while k < self.forwarders.len()
            invariant
                0 <= k <= self.forwarders@.len(),
                cv == self@,
                self.forwarders@.len() == cv.forwarders.len(),
                out@ + tail_lines(cv, k as int) == header + tail_lines(cv, 0),
            decreases self.forwarders@.len() - k,
        {
            let ghost pre = out@;
            out.push(45);
            out.push(32);
            let mut it = self.forwarders[k].to_text();
            out.append(&mut it);
            out.push(10);
            proof {
                assert(tail_lines(cv, k as int) == seq![45u8, 32] + ip_text(
                    cv.forwarders[k as int],
                ) + seq![10u8] + tail_lines(cv, k + 1));
                assert(out@ =~= pre + (seq![45u8, 32] + ip_text(cv.forwarders[k as int]) + seq![
                    10u8,
                ]));
                assert(out@ + tail_lines(cv, k + 1) =~= pre + tail_lines(cv, k as int));
            }
            k += 1;
        }
        let ghost pre_tail = out@;
        let mut pk = key_protocol_vec();
        out.append(&mut pk);
        out.push(58);
        out.push(32);
        let mut pt = proto_tok_vec(self.protocol);
        out.append(&mut pt);
        out.push(10);
        proof {
            assert(tail_lines(cv, cv.forwarders.len() as int) == key_protocol() + seq![58u8, 32]
                + proto_tok(cv.protocol) + seq![10u8]);
            assert(out@ =~= pre_tail + tail_lines(cv, cv.forwarders.len() as int));
            assert(out@ =~= header + tail_lines(cv, 0));
            assert(header + tail_lines(cv, 0) =~= emit_config(cv));
        }
        out
    }
}

/// A byte that may stand inside a field of the canonical text:
/// printable, and never the comment mark.
pub open spec fn plain_byte(b: u8) -> bool {
    33 <= b && b <= 126 && b != 35
}

/// Every byte of a dotted name text is plain.
proof fn lemma_labels_dotted_plain(n: Seq<Seq<u8>>, i: int)
    requires
        name_ok(n),
        0 <= i < n.len(),
    ensures
        forall|j: int|
            0 <= j < labels_dotted(n, i).len() ==> plain_byte(#[trigger] labels_dotted(n, i)[j]),
    decreases n.len() - i,
{
    let w = labels_dotted(n, i);
    let piece = n[i];
    assert(crate::dns_name::label_ok(piece));
    if i == n.len() - 1 {
        assert(labels_dotted(n, i + 1) =~= Seq::<u8>::empty());
        assert forall|j: int| 0 <= j < w.len() implies plain_byte(#[trigger] w[j]) by {
            if j < piece.len() {
                assert(w[j] == piece[j]);
                assert(name_byte_ok(piece[j]));
            } else if j == piece.len() {
                assert(w[j] == 46);
            }
        }
    } else {
        lemma_labels_dotted_plain(n, i + 1);
        let rest = labels_dotted(n, i + 1);
        assert forall|j: int| 0 <= j < w.len() implies plain_byte(#[trigger] w[j]) by {
            if j < piece.len() {
                assert(w[j] == piece[j]);
                assert(name_byte_ok(piece[j]));
            } else if j == piece.len() {
                assert(w[j] == 46);
            } else {
                assert(w[j] == rest[j - piece.len() - 1]);
            }
        }
    }
}

/// Every byte of a name's text is plain.
proof fn lemma_name_text_plain(n: Seq<Seq<u8>>)
    requires
        name_ok(n),
    ensures
        name_text(n).len() > 0,
        forall|j: int| 0 <= j < name_text(n).len() ==> plain_byte(#[trigger] name_text(n)[j]),
{
    if n.len() == 0 {
        assert(name_text(n) == seq![46u8]);
        assert(plain_byte(name_text(n)[0]));
    } else {
        lemma_labels_dotted_plain(n, 0);
        assert(crate::dns_name::label_ok(n[0]));
        assert(labels_dotted(n, 0).len() > 0);
    }
}

/// Every byte of a joined decimal text is plain.
proof fn lemma_dec_join_plain(gs: Seq<int>, i: int)
    requires
        0 <= i < gs.len(),
        forall|j: int| 0 <= j < gs.len() ==> 0 <= #[trigger] gs[j] <= 255,
    ensures
        dec_join(gs, i).len() > 0,
        forall|j: int| 0 <= j < dec_join(gs, i).len() ==> plain_byte(#[trigger] dec_join(gs, i)[j]),
    decreases gs.len() - i,
{
    let w = dec_join(gs, i);
    lemma_dec_text_props(gs[i]);
    let piece = crate::ip_addr::dec_text(gs[i]);
    if i == gs.len() - 1 {
        assert forall|j: int| 0 <= j < w.len() implies plain_byte(#[trigger] w[j]) by {
            assert(is_digit(piece[j]));
        }
    } else {
        lemma_dec_join_plain(gs, i + 1);
        let rest = dec_join(gs, i + 1);
        assert forall|j: int| 0 <= j < w.len() implies plain_byte(#[trigger] w[j]) by {
            if j < piece.len() {
                assert(w[j] == piece[j]);
                assert(is_digit(piece[j]));
            } else if j == piece.len() {
                assert(w[j] == 46);
            } else {
                assert(w[j] == rest[j - piece.len() - 1]);
            }
        }
    }
}

/// Every byte of a joined hexadecimal text is plain.
proof fn lemma_hex_join_plain(gs: Seq<int>, i: int)
    requires
        0 <= i < gs.len(),
        forall|j: int| 0 <= j < gs.len() ==> 0 <= #[trigger] gs[j] <= 65535,
    ensures
        hex_join(gs, i).len() > 0,
        forall|j: int| 0 <= j < hex_join(gs, i).len() ==> plain_byte(#[trigger] hex_join(gs, i)[j]),
    decreases gs.len() - i,
{
    let w = hex_join(gs, i);
    lemma_hex_text_props(gs[i]);
    let piece = crate::ip_addr::hex_text(gs[i]);
    if i == gs.len() - 1 {
        assert forall|j: int| 0 <= j < w.len() implies plain_byte(#[trigger] w[j]) by {
            assert(is_hex_digit(piece[j]));
        }
    } else {
        lemma_hex_join_plain(gs, i + 1);
        let rest = hex_join(gs, i + 1);
        assert forall|j: int| 0 <= j < w.len() implies plain_byte(#[trigger] w[j]) by {
            if j < piece.len() {
                assert(w[j] == piece[j]);
                assert(is_hex_digit(piece[j]));
            } else if j == piece.len() {
                assert(w[j] == 58);
            } else {
                assert(w[j] == rest[j - piece.len() - 1]);
            }
        }
    }
}

/// Every byte of an address text is plain.
proof fn lemma_ip_text_plain(ip: IpAddress)
    ensures
        ip_text(ip).len() > 0,
        forall|j: int| 0 <= j < ip_text(ip).len() ==> plain_byte(#[trigger] ip_text(ip)[j]),
{
    let gs = ip_groups(ip);
    match ip {
        IpAddress::V4(..) => {
            assert forall|j: int| 0 <= j < gs.len() implies 0 <= #[trigger] gs[j] <= 255 by {}
            lemma_dec_join_plain(gs, 0);
        },
        IpAddress::V6(..) => {
            assert forall|j: int| 0 <= j < gs.len() implies 0 <= #[trigger] gs[j] <= 65535 by {}
            lemma_hex_join_plain(gs, 0);
        },
    }
}

/// A line of plain bytes and in-line blanks, ending plain on both
/// sides, cleans to itself.
proof fn lemma_clean_id(l: Seq<u8>)
    requires
        forall|j: int| 0 <= j < l.len() ==> (#[trigger] l[j]) != 35,
        l.len() > 0 ==> !is_ws(l[0]) && !is_ws(l[l.len() - 1]),
    ensures
        clean(l) == l,
{
    lemma_comment_char(l, 0, l.len() as int);
    assert(l.take(comment_start(l, 0)) =~= l);
    lemma_trim_id(l);
}

/// Trimming one leading space off a plain-ended value yields the value.
proof fn lemma_trim_pad(v: Seq<u8>)
    requires
        v.len() > 0,
        !is_ws(v[0]),
        !is_ws(v[v.len() - 1]),
    ensures
        trim(seq![32u8] + v) == v,
{
    let s = seq![32u8] + v;
    assert(s[0] == 32 && is_ws(s[0]));
    assert(s[1] == v[0]);
    lemma_ws_front_char(s, 1);
    assert(s[s.len() - 1] == v[v.len() - 1]);
    assert(ws_back(s, s.len() as int) == s.len());
    assert(s.subrange(1, s.len() as int) =~= v);
}

/// The lines of the document's tail: the item lines, the protocol
/// line, and the empty piece after the final newline.
pub open spec fn tail_line_list(c: ConfigV, i: int) -> Seq<Seq<u8>>
    decreases c.forwarders.len() - i,
{
    if 0 <= i < c.forwarders.len() {
        seq![seq![45u8, 32] + ip_text(c.forwarders[i])] + tail_line_list(c, i + 1)
    } else {
        seq![key_protocol() + seq![58u8, 32] + proto_tok(c.protocol), Seq::<u8>::empty()]
    }
}

/// Splitting the document's tail yields its lines.
proof fn lemma_tail_split(c: ConfigV, i: int)
    requires
        0 <= i <= c.forwarders.len(),
    ensures
        split_on(tail_lines(c, i), 0, 10) == tail_line_list(c, i),
    decreases c.forwarders.len() - i,
{
    if i < c.forwarders.len() {
        lemma_tail_split(c, i + 1);
        let piece = seq![45u8, 32] + ip_text(c.forwarders[i]);
        lemma_ip_text_plain(c.forwarders[i]);
        assert forall|j: int| 0 <= j < piece.len() implies piece[j] != 10 by {
            if j >= 2 {
                assert(piece[j] == ip_text(c.forwarders[i])[j - 2]);
            }
        }
        lemma_split_prefix(piece, tail_lines(c, i + 1), 10);
        assert(tail_lines(c, i) =~= piece + seq![10u8] + tail_lines(c, i + 1));
    } else {
        let piece = key_protocol() + seq![58u8, 32] + proto_tok(c.protocol);
        assert forall|j: int| 0 <= j < piece.len() implies piece[j] != 10 by {}
        lemma_split_prefix(piece, Seq::empty(), 10);
        assert(tail_lines(c, i) =~= piece + seq![10u8] + Seq::<u8>::empty());
        assert(split_on(Seq::<u8>::empty(), 0, 10) =~= seq![Seq::<u8>::empty()]) by {
            assert(Seq::<u8>::empty().subrange(0, 0) =~= Seq::<u8>::empty());
        }
        assert(seq![piece] + seq![Seq::<u8>::empty()] =~= tail_line_list(c, i));
    }
}

/// The state after the whole document is read.
pub open spec fn done_state(c: ConfigV) -> ScanState {
    ScanState {
        domain: Some(name_text(c.domain_name)),
        fwd: Some(c.forwarders.map(|k: int, ip: IpAddress| ip_text(ip))),
        proto: Some(proto_tok(c.protocol)),
        in_fwd: false,
    }
}

/// An item line reads as its address text.
proof fn lemma_classify_item(ip: IpAddress)
    ensures
        classify(clean(seq![45u8, 32] + ip_text(ip))) == LineKind::Item(ip_text(ip)),
{
    let l = seq![45u8, 32] + ip_text(ip);
    lemma_ip_text_plain(ip);
    assert forall|j: int| 0 <= j < l.len() implies (#[trigger] l[j]) != 35 by {
        if j >= 2 {
            assert(l[j] == ip_text(ip)[j - 2]);
        }
    }
    assert(l[0] == 45 && !is_ws(l[0]));
    assert(l[l.len() - 1] == ip_text(ip)[ip_text(ip).len() - 1]);
    lemma_clean_id(l);
    assert(l.len() >= 2 && is_ws(l[1]));
    assert(l.skip(2) =~= ip_text(ip));
    lemma_trim_id(ip_text(ip));
}

/// A `key: value` line of plain key and value reads as that pair.
proof fn lemma_classify_keyval(key: Seq<u8>, v: Seq<u8>)
    requires
        key.len() > 0,
        forall|j: int| 0 <= j < key.len() ==> plain_byte(#[trigger] key[j]) && key[j] != 58,
        key[0] != 45,
        v.len() > 0,
        forall|j: int| 0 <= j < v.len() ==> plain_byte(#[trigger] v[j]),
    ensures
        classify(clean(key + seq![58u8, 32] + v)) == LineKind::KeyVal(key, v),
{
    let l = key + seq![58u8, 32] + v;
    assert forall|j: int| 0 <= j < l.len() implies (#[trigger] l[j]) != 35 by {
        if j < key.len() {
            assert(l[j] == key[j]);
        } else if j >= key.len() + 2 {
            assert(l[j] == v[j - key.len() - 2]);
        }
    }
    assert(l[0] == key[0] && !is_ws(l[0]));
    assert(l[l.len() - 1] == v[v.len() - 1]);
    lemma_clean_id(l);
    assert forall|j: int| 0 <= j < key.len() implies l[j] != 58 by {
        assert(l[j] == key[j]);
    }
    assert(l[key.len() as int] == 58);
    lemma_sep_end_char(l, 0, key.len() as int, 58);
    assert(l.take(key.len() as int) =~= key);
    assert(l.skip(key.len() as int + 1) =~= seq![32u8] + v);
    lemma_trim_pad(v);
    assert(l[0] != 45) by {
        assert(l[0] == key[0]);
    }
}

/// Scanning the tail lines from item `i` on completes the state.
proof fn lemma_scan_tail(c: ConfigV, i: int, st: ScanState)
    requires
        c.wf(),
        0 <= i <= c.forwarders.len(),
        st.domain == Some(name_text(c.domain_name)),
        st.fwd == Some(c.forwarders.take(i).map(|k: int, ip: IpAddress| ip_text(ip))),
        st.proto is None,
        st.in_fwd,
    ensures
        scan(tail_line_list(c, i), st) == Ok::<ScanState, ParseError>(done_state(c)),
    decreases c.forwarders.len() - i,
{
    let ls = tail_line_list(c, i);
    if i < c.forwarders.len() {
        let ip = c.forwarders[i];
        lemma_classify_item(ip);
        assert(ls[0] == seq![45u8, 32] + ip_text(ip));
        let st2 = scan_step(st, LineKind::Item(ip_text(ip)))->Ok_0;
        assert(st2.fwd == Some(st.fwd->Some_0.push(ip_text(ip))));
        assert(st.fwd->Some_0.push(ip_text(ip)) =~= c.forwarders.take(i + 1).map(
            |k: int, x: IpAddress| ip_text(x),
        ));
        assert(ls.drop_first() =~= tail_line_list(c, i + 1));
        assert(scan(ls, st) == scan(ls.drop_first(), st2));
        lemma_scan_tail(c, i + 1, st2);
        assert(scan(ls.drop_first(), st2) == scan(tail_line_list(c, i + 1), st2));
    } else {
        let pl = key_protocol() + seq![58u8, 32] + proto_tok(c.protocol);
        assert forall|j: int|
            0 <= j < key_protocol().len() implies plain_byte(#[trigger] key_protocol()[j])
            && key_protocol()[j] != 58 by {}
        assert forall|j: int|
            0 <= j < proto_tok(c.protocol).len() implies plain_byte(
            #[trigger] proto_tok(c.protocol)[j],
        ) by {}
        lemma_classify_keyval(key_protocol(), proto_tok(c.protocol));
        assert(ls[0] == pl);
        assert(key_protocol() != key_domain()) by {
            assert(key_protocol().len() != key_domain().len());
        }
        assert(key_protocol() != key_forwarders()) by {
            assert(key_protocol().len() != key_forwarders().len());
        }
        let st2 = scan_step(st, LineKind::KeyVal(key_protocol(), proto_tok(c.protocol)))->Ok_0;
        assert(st2.fwd == st.fwd);
        assert(c.forwarders.take(i) =~= c.forwarders);
        assert(st2 == done_state(c));
        assert(ls.drop_first() =~= seq![Seq::<u8>::empty()]);
        assert(scan(ls, st) == scan(ls.drop_first(), st2));
        assert(classify(clean(Seq::<u8>::empty())) is Blank) by {
            lemma_clean_id(Seq::<u8>::empty());
        }
        let one: Seq<Seq<u8>> = seq![Seq::<u8>::empty()];
        assert(one.drop_first() =~= Seq::<Seq<u8>>::empty());
        assert(scan_step(st2, LineKind::Blank) == Ok::<ScanState, ParseError>(st2));
        assert(scan(one, st2) == scan(one.drop_first(), st2));
        assert(scan(one.drop_first(), st2) == Ok::<ScanState, ParseError>(st2));
    }
}

/// Writing a rule out and reading it back restores it exactly: the
/// canonical text loses nothing.
pub proof fn lemma_config_round_trip(c: ConfigV)
    requires
        c.wf(),
    ensures
        parse_config(emit_config(c)) == Ok::<ConfigV, ParseError>(c),
{
    let t = emit_config(c);
    let l0 = key_domain() + seq![58u8, 32] + name_text(c.domain_name);
    let l1 = key_forwarders() + seq![58u8];
    lemma_name_text_plain(c.domain_name);
    assert forall|j: int|
        0 <= j < key_domain().len() implies plain_byte(#[trigger] key_domain()[j]) && key_domain()[
        j
    ] != 58 by {}
    assert forall|j: int|
        0 <= j < key_forwarders().len() implies plain_byte(#[trigger] key_forwarders()[j])
        && key_forwarders()[j] != 58 by {}

    // The document splits into its lines.
    assert forall|j: int| 0 <= j < l0.len() implies l0[j] != 10 by {
        if j < key_domain().len() {
            assert(l0[j] == key_domain()[j]);
        } else if j >= key_domain().len() + 2 {
            assert(l0[j] == name_text(c.domain_name)[j - key_domain().len() - 2]);
        }
    }
    assert forall|j: int| 0 <= j < l1.len() implies l1[j] != 10 by {
        if j < key_forwarders().len() {
            assert(l1[j] == key_forwarders()[j]);
        }
    }
    assert(t =~= l0 + seq![10u8] + (l1 + seq![10u8] + tail_lines(c, 0)));
    lemma_split_prefix(l0, l1 + seq![10u8] + tail_lines(c, 0), 10);
    lemma_split_prefix(l1, tail_lines(c, 0), 10);
    lemma_tail_split(c, 0);
    let lines = split_on(t, 0, 10);
    assert(lines =~= seq![l0, l1] + tail_line_list(c, 0));

    // The first two lines fill the zone name and open the list.
    lemma_classify_keyval(key_domain(), name_text(c.domain_name));
    let st1 = scan_step(scan_init(), LineKind::KeyVal(key_domain(), name_text(c.domain_name)))
        ->Ok_0;
    assert(lines[0] == l0);
    assert(lines.drop_first() =~= seq![l1] + tail_line_list(c, 0));
    assert(scan(lines, scan_init()) == scan(lines.drop_first(), st1));

    // `forwarders:` has an empty value.
    assert forall|j: int| 0 <= j < l1.len() implies (#[trigger] l1[j]) != 35 by {
        if j < key_forwarders().len() {
            assert(l1[j] == key_forwarders()[j]);
        }
    }
    assert(l1[0] == key_forwarders()[0] && !is_ws(l1[0]));
    assert(l1[l1.len() - 1] == 58 && !is_ws(l1[l1.len() - 1]));
    lemma_clean_id(l1);
    assert forall|j: int| 0 <= j < key_forwarders().len() implies l1[j] != 58 by {
        assert(l1[j] == key_forwarders()[j]);
    }
    assert(l1[key_forwarders().len() as int] == 58);
    lemma_sep_end_char(l1, 0, key_forwarders().len() as int, 58);
    assert(l1.take(key_forwarders().len() as int) =~= key_forwarders());
    assert(l1.skip(key_forwarders().len() as int + 1) =~= Seq::<u8>::empty());
    assert(trim(Seq::<u8>::empty()) =~= Seq::<u8>::empty());
    assert(classify(clean(l1)) == LineKind::KeyVal(key_forwarders(), Seq::<u8>::empty()));
    assert(key_forwarders() != key_domain()) by {
        assert(key_forwarders().len() != key_domain().len());
    }
    let st2 = scan_step(st1, LineKind::KeyVal(key_forwarders(), Seq::<u8>::empty()))->Ok_0;
    assert((seq![l1] + tail_line_list(c, 0)).drop_first() =~= tail_line_list(c, 0));
    assert((seq![l1] + tail_line_list(c, 0))[0] == l1);
    assert(scan(seq![l1] + tail_line_list(c, 0), st1) == scan(tail_line_list(c, 0), st2));

    // The rest of the lines complete the state.
    assert(st2.fwd == Some(Seq::<Seq<u8>>::empty()));
    assert(c.forwarders.take(0).map(|k: int, ip: IpAddress| ip_text(ip)) =~= Seq::<Seq<
        u8,
    >>::empty()) by {
        assert(c.forwarders.take(0) =~= Seq::<IpAddress>::empty());
    }
    lemma_scan_tail(c, 0, st2);
    assert(scan(lines, scan_init()) == Ok::<ScanState, ParseError>(done_state(c)));

    // Validation undoes the writing, field by field.
    let st = done_state(c);
    lemma_name_round_trip(c.domain_name);
    let items = c.forwarders.map(|k: int, ip: IpAddress| ip_text(ip));
    assert(items.len() == c.forwarders.len());
    assert forall|x: int| 0 <= x < items.len() implies parse_ip(#[trigger] items[x]) == Some(
        c.forwarders[x],
    ) by {
        lemma_ip_round_trip(c.forwarders[x]);
    }
    lemma_ip_list_ok(items, c.forwarders);
    match c.protocol {
        Protocol::Udp => {},
        Protocol::Tcp => {
            assert(proto_tok(Protocol::Tcp) != proto_tok(Protocol::Udp)) by {
                assert(proto_tok(Protocol::Tcp)[0] == 116 && proto_tok(Protocol::Udp)[0] == 117);
            }
        },
        Protocol::Tls => {
            assert(proto_tok(Protocol::Tls) != proto_tok(Protocol::Udp)) by {
                assert(proto_tok(Protocol::Tls)[0] == 116 && proto_tok(Protocol::Udp)[0] == 117);
            }
            assert(proto_tok(Protocol::Tls) != proto_tok(Protocol::Tcp)) by {
                assert(proto_tok(Protocol::Tls)[1] == 108 && proto_tok(Protocol::Tcp)[1] == 99);
            }
        },
    }
    assert(finalize(st) == Ok::<ConfigV, ParseError>(c));
}

} // verus!
