//! Upstream nameserver addresses as plain values.
//!
//! The routing logic never opens sockets; it only records which address
//! a zone's upstreams live at, so an address is held as its raw parts.

use vstd::prelude::*;

use crate::bytes::{
    lemma_sep_end_char, lemma_split_prefix, lemma_split_single, sep_end, split_on, split_on_byte,
};

verus! {

/// An IP address: four octets, or eight 16-bit groups.
#[derive(Clone, Copy, PartialEq, Eq, Structural, Debug)]
pub enum IpAddress {
    V4(u8, u8, u8, u8),
    V6(u16, u16, u16, u16, u16, u16, u16, u16),
}

/// The byte is a decimal digit.
pub open spec fn is_digit(b: u8) -> bool {
    48 <= b && b <= 57
}

/// The number a string of decimal digits denotes.
pub open spec fn dec_value(p: Seq<u8>) -> int
    decreases p.len(),
{
    if p.len() == 0 {
        0
    } else {
        dec_value(p.drop_last()) * 10 + (p.last() - 48)
    }
}

/// A valid dotted-quad part: one to three digits, no leading zero,
/// at most 255.
pub open spec fn dec_ok(p: Seq<u8>) -> bool {
    &&& 1 <= p.len() <= 3
    &&& forall|j: int| 0 <= j < p.len() ==> is_digit(#[trigger] p[j])
    &&& (p.len() > 1 ==> p[0] != 48)
    &&& dec_value(p) <= 255
}

/// The byte is a hexadecimal digit.
pub open spec fn is_hex_digit(b: u8) -> bool {
    is_digit(b) || (97 <= b && b <= 102) || (65 <= b && b <= 70)
}

/// The value of one hexadecimal digit.
pub open spec fn hex_digit_value(b: u8) -> int {
    if is_digit(b) {
        b - 48
    } else if 97 <= b && b <= 102 {
        b - 87
    } else {
        b - 55
    }
}

/// The number a string of hexadecimal digits denotes.
pub open spec fn hex_value(p: Seq<u8>) -> int
    decreases p.len(),
{
    if p.len() == 0 {
        0
    } else {
        hex_value(p.drop_last()) * 16 + hex_digit_value(p.last())
    }
}

/// A valid address group: one to four hexadecimal digits.
pub open spec fn hex_ok(p: Seq<u8>) -> bool {
    &&& 1 <= p.len() <= 4
    &&& forall|j: int| 0 <= j < p.len() ==> is_hex_digit(#[trigger] p[j])
}

/// What a dotted-quad IPv4 text denotes.
pub open spec fn parse_v4(t: Seq<u8>) -> Option<IpAddress> {
    let ps = split_on(t, 0, 46);
    if ps.len() == 4 && dec_ok(ps[0]) && dec_ok(ps[1]) && dec_ok(ps[2]) && dec_ok(ps[3]) {
        Some(
            IpAddress::V4(
                dec_value(ps[0]) as u8,
                dec_value(ps[1]) as u8,
                dec_value(ps[2]) as u8,
                dec_value(ps[3]) as u8,
            ),
        )
    } else {
        None
    }
}

/// What an eight-group IPv6 text denotes. Only the full form is
/// recognized; `::` compression is not.
pub open spec fn parse_v6(t: Seq<u8>) -> Option<IpAddress> {
    let ps = split_on(t, 0, 58);
    if ps.len() == 8 && (forall|i: int| 0 <= i < 8 ==> hex_ok(#[trigger] ps[i])) {
        Some(
            IpAddress::V6(
                hex_value(ps[0]) as u16,
                hex_value(ps[1]) as u16,
                hex_value(ps[2]) as u16,
                hex_value(ps[3]) as u16,
                hex_value(ps[4]) as u16,
                hex_value(ps[5]) as u16,
                hex_value(ps[6]) as u16,
                hex_value(ps[7]) as u16,
            ),
        )
    } else {
        None
    }
}

/// What an address text denotes: dotted quad when a dot appears,
/// else the full eight-group form.
pub open spec fn parse_ip(t: Seq<u8>) -> Option<IpAddress> {
    if sep_end(t, 0, 46) < t.len() {
        parse_v4(t)
    } else {
        parse_v6(t)
    }
}

/// The decimal text of a number, without leading zeros.
pub open spec fn dec_text(n: int) -> Seq<u8>
    decreases n,
{
    if n < 10 {
        seq![(48 + if n >= 0 { n } else { 0 }) as u8]
    } else {
        dec_text(n / 10).push((48 + n % 10) as u8)
    }
}

/// The lower-case hexadecimal text of a number, without leading zeros.
pub open spec fn hex_text(n: int) -> Seq<u8>
    decreases n,
{
    if n < 16 {
        seq![(if 0 <= n < 10 { 48 + n } else if 10 <= n < 16 { 87 + n } else { 48 }) as u8]
    } else {
        hex_text(n / 16).push((if n % 16 < 10 { 48 + n % 16 } else { 87 + n % 16 }) as u8)
    }
}

/// Decimal text of a byte value: digits only, no leading zero, the
/// value written and read back unchanged.
#[verifier::rlimit(100)]
pub proof fn lemma_dec_text_props(n: int)
    requires
        0 <= n <= 255,
    ensures
        1 <= dec_text(n).len() <= 3,
        n < 10 ==> dec_text(n).len() == 1,
        n < 100 ==> dec_text(n).len() <= 2,
        n >= 1 ==> dec_text(n)[0] != 48,
        dec_value(dec_text(n)) == n,
        dec_ok(dec_text(n)),
    decreases n,
{
    if n < 10 {
        let s = dec_text(n);
        assert(s == seq![(48 + n) as u8]);
        assert(s.drop_last() =~= Seq::<u8>::empty());
        assert(dec_value(s.drop_last()) == 0);
        assert(s.last() == (48 + n) as u8);
        assert(dec_value(s) == n);
        assert(is_digit(s[0]));
        assert(dec_ok(s));
    } else {
        lemma_dec_text_props(n / 10);
        let t = dec_text(n / 10);
        let d = (48 + n % 10) as u8;
        let w = t.push(d);
        assert(w.drop_last() =~= t);
        assert(w.last() == d);
        assert(dec_text(n) == w);
        assert(dec_value(w) == dec_value(t) * 10 + n % 10);
        assert(dec_value(w) == n) by {
            assert((n / 10) * 10 + n % 10 == n);
        }
        assert(w[0] == t[0]);
        assert(n / 10 >= 1);
        assert(w[0] != 48);
        assert forall|j: int| 0 <= j < w.len() implies is_digit(#[trigger] w[j]) by {
            if j < t.len() {
                assert(w[j] == t[j]);
                assert(is_digit(t[j])) by {
                    assert(dec_ok(t));
                }
            } else {
                assert(w[j] == d);
            }
        }
        if n >= 100 {
            assert(n / 10 >= 10);
        } else {
            assert(n / 10 < 10);
        }
        assert(dec_ok(w));
    }
}

/// Hexadecimal text of a group value: hex digits only, the value
/// written and read back unchanged.
#[verifier::rlimit(100)]
pub proof fn lemma_hex_text_props(n: int)
    requires
        0 <= n <= 65535,
    ensures
        1 <= hex_text(n).len() <= 4,
        n < 16 ==> hex_text(n).len() == 1,
        n < 256 ==> hex_text(n).len() <= 2,
        n < 4096 ==> hex_text(n).len() <= 3,
        hex_value(hex_text(n)) == n,
        hex_ok(hex_text(n)),
    decreases n,
{
    if n < 16 {
        let s = hex_text(n);
        assert(s.drop_last() =~= Seq::<u8>::empty());
        assert(hex_value(s.drop_last()) == 0);
        assert(hex_digit_value(s.last()) == n);
        assert(hex_value(s) == n);
        assert(is_hex_digit(s[0]));
        assert(hex_ok(s));
    } else {
        lemma_hex_text_props(n / 16);
        let t = hex_text(n / 16);
        let d = (if n % 16 < 10 {
            48 + n % 16
        } else {
            87 + n % 16
        }) as u8;
        let w = t.push(d);
        assert(w.drop_last() =~= t);
        assert(w.last() == d);
        assert(hex_text(n) == w);
        assert(hex_digit_value(d) == n % 16);
        assert(hex_value(w) == hex_value(t) * 16 + n % 16);
        assert(hex_value(w) == n) by {
            assert((n / 16) * 16 + n % 16 == n);
        }
        assert forall|j: int| 0 <= j < w.len() implies is_hex_digit(#[trigger] w[j]) by {
            if j < t.len() {
                assert(w[j] == t[j]);
                assert(is_hex_digit(t[j])) by {
                    assert(hex_ok(t));
                }
            } else {
                assert(w[j] == d);
            }
        }
        if n >= 4096 {
            assert(n / 16 >= 256);
        } else if n >= 256 {
            assert(16 <= n / 16 < 256);
        } else {
            assert(n / 16 < 16);
        }
        assert(hex_ok(w));
    }
}

/// The values of an address's textual pieces: four octets, or eight
/// groups.
pub open spec fn ip_groups(ip: IpAddress) -> Seq<int> {
    match ip {
        IpAddress::V4(a, b, c, d) => seq![a as int, b as int, c as int, d as int],
        IpAddress::V6(g0, g1, g2, g3, g4, g5, g6, g7) => seq![
            g0 as int,
            g1 as int,
            g2 as int,
            g3 as int,
            g4 as int,
            g5 as int,
            g6 as int,
            g7 as int,
        ],
    }
}

/// The decimal texts of the values from `i` on, separated by dots.
pub open spec fn dec_join(gs: Seq<int>, i: int) -> Seq<u8>
    decreases gs.len() - i,
{
    if i < 0 || i >= gs.len() {
        Seq::empty()
    } else if i == gs.len() - 1 {
        dec_text(gs[i])
    } else {
        dec_text(gs[i]) + seq![46u8] + dec_join(gs, i + 1)
    }
}

/// The hexadecimal texts of the values from `i` on, separated by colons.
pub open spec fn hex_join(gs: Seq<int>, i: int) -> Seq<u8>
    decreases gs.len() - i,
{
    if i < 0 || i >= gs.len() {
        Seq::empty()
    } else if i == gs.len() - 1 {
        hex_text(gs[i])
    } else {
        hex_text(gs[i]) + seq![58u8] + hex_join(gs, i + 1)
    }
}

/// The canonical text of an address: dotted quad, or eight lower-case
/// hexadecimal groups in full form.
pub open spec fn ip_text(ip: IpAddress) -> Seq<u8> {
    match ip {
        IpAddress::V4(..) => dec_join(ip_groups(ip), 0),
        IpAddress::V6(..) => hex_join(ip_groups(ip), 0),
    }
}

/// Splitting joined decimal texts at the dots restores the texts.
proof fn lemma_dec_join_split(gs: Seq<int>, i: int)
    requires
        0 <= i < gs.len(),
        forall|j: int| 0 <= j < gs.len() ==> 0 <= #[trigger] gs[j] <= 255,
    ensures
        split_on(dec_join(gs, i), 0, 46) == gs.skip(i).map(|k: int, g: int| dec_text(g)),
    decreases gs.len() - i,
{
    lemma_dec_text_props(gs[i]);
    if i == gs.len() - 1 {
        lemma_split_single(dec_text(gs[i]), 46);
        assert(seq![dec_text(gs[i])] =~~= gs.skip(i).map(|k: int, g: int| dec_text(g)));
    } else {
        lemma_dec_join_split(gs, i + 1);
        lemma_split_prefix(dec_text(gs[i]), dec_join(gs, i + 1), 46);
        assert(seq![dec_text(gs[i])] + gs.skip(i + 1).map(|k: int, g: int| dec_text(g)) =~~= gs.skip(
            i,
        ).map(|k: int, g: int| dec_text(g)));
    }
}

/// Splitting joined hexadecimal texts at the colons restores the
/// texts; no dot appears anywhere in them.
proof fn lemma_hex_join_split(gs: Seq<int>, i: int)
    requires
        0 <= i < gs.len(),
        forall|j: int| 0 <= j < gs.len() ==> 0 <= #[trigger] gs[j] <= 65535,
    ensures
        split_on(hex_join(gs, i), 0, 58) == gs.skip(i).map(|k: int, g: int| hex_text(g)),
        forall|b: int| 0 <= b < hex_join(gs, i).len() ==> #[trigger] hex_join(gs, i)[b] != 46,
    decreases gs.len() - i,
{
    lemma_hex_text_props(gs[i]);
    if i == gs.len() - 1 {
        lemma_split_single(hex_text(gs[i]), 58);
        assert(seq![hex_text(gs[i])] =~~= gs.skip(i).map(|k: int, g: int| hex_text(g)));
    } else {
        lemma_hex_join_split(gs, i + 1);
        lemma_split_prefix(hex_text(gs[i]), hex_join(gs, i + 1), 58);
        assert(seq![hex_text(gs[i])] + gs.skip(i + 1).map(|k: int, g: int| hex_text(g)) =~~= gs.skip(
            i,
        ).map(|k: int, g: int| hex_text(g)));
        let w = hex_join(gs, i);
        let piece = hex_text(gs[i]);
        let rest = hex_join(gs, i + 1);
        assert forall|b: int| 0 <= b < w.len() implies #[trigger] w[b] != 46 by {
            if b < piece.len() {
                assert(w[b] == piece[b]);
                assert(is_hex_digit(piece[b]));
            } else if b == piece.len() {
                assert(w[b] == 58);
            } else {
                assert(w[b] == rest[b - piece.len() - 1]);
            }
        }
    }
}

/// One dotted-quad part: up to three digits, no leading zero, at
/// most 255.
fn parse_dec_part(p: &Vec<u8>) -> (r: Option<u8>)
    ensures
        match r {
            Some(v) => dec_ok(p@) && v as int == dec_value(p@),
            None => !dec_ok(p@),
        },
{
    if p.len() < 1 || p.len() > 3 {
        return None;
    }
    if p.len() > 1 && p[0] == 48 {
        return None;
    }
    let mut acc: u32 = 0;
    let mut i: usize = 0;
    while i < p.len()
        invariant
            0 <= i <= p@.len(),
            1 <= p@.len() <= 3,
            forall|j: int| 0 <= j < i ==> is_digit(#[trigger] p@[j]),
            acc as int == dec_value(p@.take(i as int)),
            i == 0 ==> acc == 0,
            i == 1 ==> acc <= 9,
            i == 2 ==> acc <= 99,
            i == 3 ==> acc <= 999,
        decreases p@.len() - i,
    {
        let b = p[i];
        if b < 48 || b > 57 {
            proof {
                assert(!is_digit(p@[i as int]));
            }
            return None;
        }
        proof {
            assert(p@.take(i + 1).drop_last() =~= p@.take(i as int));
            assert(p@.take(i + 1).last() == p@[i as int]);
        }
        acc = acc * 10 + ((b - 48) as u32);
        i += 1;
    }
    proof {
        assert(p@.take(p@.len() as int) =~= p@);
    }
    if acc > 255 {
        return None;
    }
    Some(acc as u8)
}

/// One address group: up to four hexadecimal digits.
fn parse_hex_part(p: &Vec<u8>) -> (r: Option<u16>)
    ensures
        match r {
            Some(v) => hex_ok(p@) && v as int == hex_value(p@),
            None => !hex_ok(p@),
        },
{
    if p.len() < 1 || p.len() > 4 {
        return None;
    }
    let mut acc: u32 = 0;
    let mut i: usize = 0;
    while i < p.len()
        invariant
            0 <= i <= p@.len(),
            1 <= p@.len() <= 4,
            forall|j: int| 0 <= j < i ==> is_hex_digit(#[trigger] p@[j]),
            acc as int == hex_value(p@.take(i as int)),
            i == 0 ==> acc == 0,
            i == 1 ==> acc <= 15,
            i == 2 ==> acc <= 255,
            i == 3 ==> acc <= 4095,
            i == 4 ==> acc <= 65535,
        decreases p@.len() - i,
    {
        let b = p[i];
        let d: u32 = if 48 <= b && b <= 57 {
            (b - 48) as u32
        } else if 97 <= b && b <= 102 {
            (b - 87) as u32
        } else if 65 <= b && b <= 70 {
            (b - 55) as u32
        } else {
            proof {
                assert(!is_hex_digit(p@[i as int]));
            }
            return None;
        };
        proof {
            assert(p@.take(i + 1).drop_last() =~= p@.take(i as int));
            assert(p@.take(i + 1).last() == p@[i as int]);
            assert(d as int == hex_digit_value(p@[i as int]));
        }
        acc = acc * 16 + d;
        i += 1;
    }
    proof {
        assert(p@.take(p@.len() as int) =~= p@);
    }
    Some(acc as u16)
}

impl IpAddress {
    /// Read an address from its text: a dotted quad when a dot
    /// appears, else the full eight-group form.
    #[verifier::loop_isolation(false)]
    pub fn parse(t: &[u8]) -> (r: Option<IpAddress>)
        ensures
            match r {
                Some(ip) => parse_ip(t@) == Some(ip),
                None => parse_ip(t@) is None,
            },
    {
        let mut e: usize = 0;
        while e < t.len() && t[e] != 46
            invariant
                0 <= e <= t@.len(),
                forall|j: int| 0 <= j < e ==> t@[j] != 46,
            decreases t@.len() - e,
        {
            e += 1;
        }
        proof {
            lemma_sep_end_char(t@, 0, e as int, 46);
        }
        if e < t.len() {
            let ps = split_on_byte(t, 46);
            let ghost pv = split_on(t@, 0, 46);
            if ps.len() != 4 {
                return None;
            }
            let a = match parse_dec_part(&ps[0]) {
                Some(v) => v,
                None => {
                    return None;
                },
            };
            let b = match parse_dec_part(&ps[1]) {
                Some(v) => v,
                None => {
                    return None;
                },
            };
            let c = match parse_dec_part(&ps[2]) {
                Some(v) => v,
                None => {
                    return None;
                },
            };
            let d = match parse_dec_part(&ps[3]) {
                Some(v) => v,
                None => {
                    return None;
                },
            };
            Some(IpAddress::V4(a, b, c, d))
        } else {
            let ps = split_on_byte(t, 58);
            let ghost pv = split_on(t@, 0, 58);
            if ps.len() != 8 {
                return None;
            }
            let mut groups: Vec<u16> = Vec::new();
            let mut k: usize = 0;
            while k < 8
                invariant
                    0 <= k <= 8,
                    groups@.len() == k,
                    ps@.len() == 8,
                    forall|x: int| 0 <= x < k ==> hex_ok(#[trigger] pv[x]),
                    forall|x: int|
                        0 <= x < k ==> (#[trigger] groups@[x]) as int == hex_value(pv[x]),
                decreases 8 - k,
            {
                match parse_hex_part(&ps[k]) {
                    Some(v) => {
                        groups.push(v);
                    },
                    None => {
                        return None;
                    },
                }
                k += 1;
            }
            Some(
                IpAddress::V6(
                    groups[0],
                    groups[1],
                    groups[2],
                    groups[3],
                    groups[4],
                    groups[5],
                    groups[6],
                    groups[7],
                ),
            )
        }
    }

    /// The canonical text of the address.
    pub fn to_text(&self) -> (r: Vec<u8>)
        ensures
            r@ == ip_text(*self),
    {
        let ghost gs = ip_groups(*self);
        match self {
            IpAddress::V4(a, b, c, d) => {
                let mut parts: Vec<u8> = Vec::new();
                parts.push(*a);
                parts.push(*b);
                parts.push(*c);
                parts.push(*d);
                proof {
                    assert forall|x: int| 0 <= x < 4 implies gs[x] == (#[trigger] parts@[x]) as int
                        by {}
                }
                let mut out = emit_dec(parts[0]);
                let mut k: usize = 1;
                while k < 4
                    invariant
                        1 <= k <= 4,
                        parts@.len() == 4,
                        gs.len() == 4,
                        forall|x: int| 0 <= x < 4 ==> gs[x] == (#[trigger] parts@[x]) as int,
                        k < 4 ==> dec_join(gs, 0) == out@ + seq![46u8] + dec_join(gs, k as int),
                        k == 4 ==> dec_join(gs, 0) == out@,
                    decreases 4 - k,
                {
                    out.push(46);
                    let mut piece = emit_dec(parts[k]);
                    let ghost pre = out@;
                    out.append(&mut piece);
                    proof {
                        if k < 3 {
                            assert(dec_join(gs, k as int) == dec_text(gs[k as int]) + seq![46u8]
                                + dec_join(gs, k + 1));
                            assert(pre.drop_last() + seq![46u8] + dec_join(gs, k as int) =~= out@
                                + seq![46u8] + dec_join(gs, k + 1));
                        } else {
                            assert(dec_join(gs, 3) == dec_text(gs[3]));
                            assert(pre.drop_last() + seq![46u8] + dec_join(gs, 3) =~= out@);
                        }
                    }
                    k += 1;
                }
                out
            },
            IpAddress::V6(g0, g1, g2, g3, g4, g5, g6, g7) => {
                let mut parts: Vec<u16> = Vec::new();
                parts.push(*g0);
                parts.push(*g1);
                parts.push(*g2);
                parts.push(*g3);
                parts.push(*g4);
                parts.push(*g5);
                parts.push(*g6);
                parts.push(*g7);
                proof {
                    assert forall|x: int| 0 <= x < 8 implies gs[x] == (#[trigger] parts@[x]) as int
                        by {}
                }
                let mut out = emit_hex(parts[0]);
                let mut k: usize = 1;
                while k < 8
                    invariant
                        1 <= k <= 8,
                        parts@.len() == 8,
                        gs.len() == 8,
                        forall|x: int| 0 <= x < 8 ==> gs[x] == (#[trigger] parts@[x]) as int,
                        k < 8 ==> hex_join(gs, 0) == out@ + seq![58u8] + hex_join(gs, k as int),
                        k == 8 ==> hex_join(gs, 0) == out@,
                    decreases 8 - k,
                {
                    out.push(58);
                    let mut piece = emit_hex(parts[k]);
                    let ghost pre = out@;
                    out.append(&mut piece);
                    proof {
                        if k < 7 {
                            assert(hex_join(gs, k as int) == hex_text(gs[k as int]) + seq![58u8]
                                + hex_join(gs, k + 1));
                            assert(pre.drop_last() + seq![58u8] + hex_join(gs, k as int) =~= out@
                                + seq![58u8] + hex_join(gs, k + 1));
                        } else {
                            assert(hex_join(gs, 7) == hex_text(gs[7]));
                            assert(pre.drop_last() + seq![58u8] + hex_join(gs, 7) =~= out@);
                        }
                    }
                    k += 1;
                }
                out
            },
        }
    }
}

/// The decimal digits of a byte value.
fn emit_dec(n: u8) -> (r: Vec<u8>)
    ensures
        r@ == dec_text(n as int),
    decreases n,
{
    if n < 10 {
        let mut v: Vec<u8> = Vec::new();
        v.push(48 + n);
        proof {
            assert(v@ =~= seq![(48 + n as int) as u8]);
        }
        v
    } else {
        let mut v = emit_dec(n / 10);
        v.push(48 + n % 10);
        v
    }
}

/// The lower-case hexadecimal digits of a group value.
fn emit_hex(n: u16) -> (r: Vec<u8>)
    ensures
        r@ == hex_text(n as int),
    decreases n,
{
    if n < 16 {
        let d = n as u8;
        let mut v: Vec<u8> = Vec::new();
        if d < 10 {
            v.push(48 + d);
        } else {
            v.push(87 + d);
        }
        proof {
            assert(v@ =~= hex_text(n as int));
        }
        v
    } else {
        let mut v = emit_hex(n / 16);
        let d = (n % 16) as u8;
        if d < 10 {
            v.push(48 + d);
        } else {
            v.push(87 + d);
        }
        proof {
            assert(v@ =~= hex_text(n as int));
        }
        v
    }
}

/// Writing an address out and reading it back restores it exactly.
pub proof fn lemma_ip_round_trip(ip: IpAddress)
    ensures
        parse_ip(ip_text(ip)) == Some(ip),
{
    let gs = ip_groups(ip);
    let t = ip_text(ip);
    match ip {
        IpAddress::V4(a, b, c, d) => {
            lemma_dec_text_props(a as int);
            lemma_dec_join_split(gs, 0);
            let ps = split_on(t, 0, 46);
            assert(ps =~~= seq![
                dec_text(a as int),
                dec_text(b as int),
                dec_text(c as int),
                dec_text(d as int),
            ]) by {
                assert(gs.skip(0) =~= gs);
            }
            lemma_dec_text_props(b as int);
            lemma_dec_text_props(c as int);
            lemma_dec_text_props(d as int);
            assert(sep_end(t, 0, 46) < t.len()) by {
                let pa = dec_text(a as int);
                assert(t == pa + seq![46u8] + dec_join(gs, 1));
                assert(t[pa.len() as int] == 46);
                assert forall|j: int| 0 <= j < pa.len() implies t[j] != 46 by {
                    assert(t[j] == pa[j]);
                    assert(is_digit(pa[j]));
                }
                lemma_sep_end_char(t, 0, pa.len() as int, 46);
            }
            assert(parse_v4(t) == Some(ip));
        },
        IpAddress::V6(g0, g1, g2, g3, g4, g5, g6, g7) => {
            lemma_hex_join_split(gs, 0);
            let ps = split_on(t, 0, 58);
            assert(ps =~~= seq![
                hex_text(g0 as int),
                hex_text(g1 as int),
                hex_text(g2 as int),
                hex_text(g3 as int),
                hex_text(g4 as int),
                hex_text(g5 as int),
                hex_text(g6 as int),
                hex_text(g7 as int),
            ]) by {
                assert(gs.skip(0) =~= gs);
            }
            lemma_hex_text_props(g0 as int);
            lemma_hex_text_props(g1 as int);
            lemma_hex_text_props(g2 as int);
            lemma_hex_text_props(g3 as int);
            lemma_hex_text_props(g4 as int);
            lemma_hex_text_props(g5 as int);
            lemma_hex_text_props(g6 as int);
            lemma_hex_text_props(g7 as int);
            assert(sep_end(t, 0, 46) == t.len()) by {
                lemma_sep_end_char(t, 0, t.len() as int, 46);
            }
            assert(parse_v6(t) == Some(ip));
        },
    }
}

} // verus!
