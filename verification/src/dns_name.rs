//! Domain names, canonicalized to lower case.
//!
//! A name is an ordered sequence of labels, most specific first, without
//! the trailing empty root label: the root name `.` has no labels at all.
//! Routing matches a zone origin against a query name by label suffix,
//! so the root origin matches every query.

use vstd::prelude::*;

use crate::bytes::{
    bytes_eq, copy_bytes, is_upper_byte, lemma_split_prefix, lemma_split_single, lower_byte,
    lower_bytes, split_on, split_on_byte, to_lower_byte,
};

verus! {

/// A byte that may stand in a canonical (lower-cased) label: printable
/// ASCII, excluding space, the label separator `.`, the comment mark `#`,
/// both quote characters, and upper-case letters.
pub open spec fn name_byte_ok(b: u8) -> bool {
    &&& 33 <= b && b <= 126
    &&& b != 46  // `.`
    &&& b != 35  // `#`
    &&& b != 34  // `"`
    &&& b != 39  // `'`
    &&& !is_upper_byte(b)
}

/// A canonical label: one to 63 acceptable bytes.
pub open spec fn label_ok(l: Seq<u8>) -> bool {
    &&& 1 <= l.len() <= 63
    &&& forall|i: int| 0 <= i < l.len() ==> name_byte_ok(#[trigger] l[i])
}

/// A canonical name: every label is canonical.
pub open spec fn name_ok(n: Seq<Seq<u8>>) -> bool {
    forall|i: int| 0 <= i < n.len() ==> label_ok(#[trigger] n[i])
}

/// `a` is a label suffix of `b`: `b` ends with exactly the labels of `a`.
pub open spec fn suffix_of(a: Seq<Seq<u8>>, b: Seq<Seq<u8>>) -> bool {
    &&& a.len() <= b.len()
    &&& a == b.subrange(b.len() - a.len(), b.len() as int)
}

/// A domain name, held as its sequence of lower-cased labels.
pub struct DnsName {
    pub labels: Vec<Vec<u8>>,
}

impl View for DnsName {
    type V = Seq<Seq<u8>>;

    open spec fn view(&self) -> Seq<Seq<u8>> {
        self.labels@.map(|i: int, l: Vec<u8>| l@)
    }
}

impl DnsName {
    /// The name is canonical.
    pub open spec fn wf(&self) -> bool {
        name_ok(self@)
    }

    /// The root name `.`, which every name has as a suffix.
    pub fn root() -> (r: DnsName)
        ensures
            r@ == Seq::<Seq<u8>>::empty(),
            r.wf(),
    {
        let r = DnsName { labels: Vec::new() };
        proof {
            assert(r@ =~= Seq::<Seq<u8>>::empty());
        }
        r
    }

    /// The name is the root.
    pub fn is_root(&self) -> (r: bool)
        ensures
            r == (self@.len() == 0),
    {
        self.labels.len() == 0
    }

    /// How many labels the name has.
    pub fn label_count(&self) -> (n: usize)
        ensures
            n == self@.len(),
    {
        self.labels.len()
    }

    /// Structural copy of the name.
    pub fn duplicate(&self) -> (r: DnsName)
        ensures
            r@ == self@,
    {
        let mut out: Vec<Vec<u8>> = Vec::new();
        let mut i: usize = 0;
        while i < self.labels.len()
            invariant
                i <= self.labels.len(),
                out@.len() == i,
                forall|j: int| 0 <= j < i ==> out@[j]@ == self.labels@[j]@,
            decreases self.labels.len() - i,
        {
            out.push(copy_bytes(&self.labels[i]));
            i += 1;
        }
        let r = DnsName { labels: out };
        proof {
            assert(r@ =~= self@);
        }
        r
    }

    /// The two names are equal label for label.
    pub fn eq_name(&self, other: &DnsName) -> (r: bool)
        ensures
            r == (self@ == other@),
    {
        if self.labels.len() != other.labels.len() {
            proof {
                assert(self@.len() != other@.len());
            }
            return false;
        }
        let mut i: usize = 0;
        while i < self.labels.len()
            invariant
                i <= self.labels.len(),
                self@.len() == other@.len(),
                self.labels.len() == self@.len(),
                forall|j: int| 0 <= j < i ==> self@[j] == other@[j],
        decreases self.labels.len() - i,
        {
            if !bytes_eq(self.labels[i].as_slice(), other.labels[i].as_slice()) {
                proof {
                    assert(self@[i as int] != other@[i as int]);
                }
                return false;
            }
            i += 1;
        }
        proof {
            assert(self@ =~= other@);
        }
        true
    }

    /// The name is a label suffix of `other` (`internal.example.` is a
    /// suffix of `host.internal.example.`; the root is a suffix of all).
    pub fn is_suffix_of(&self, other: &DnsName) -> (r: bool)
        ensures
            r == suffix_of(self@, other@),
    {
        let k = self.labels.len();
        let n = other.labels.len();
        if k > n {
            return false;
        }
        let mut i: usize = 0;
        while i < k
            invariant
                i <= k,
                k <= n,
                k == self@.len(),
                n == other@.len(),
                forall|j: int| 0 <= j < i ==> self@[j] == other@[n - k + j],
            decreases k - i,
        {
            if !bytes_eq(self.labels[i].as_slice(), other.labels[n - k + i].as_slice()) {
                proof {
                    let tail = other@.subrange(n - k, n as int);
                    assert(tail[i as int] == other@[n - k + i]);
                }
                return false;
            }
            i += 1;
        }
        proof {
            assert(self@ =~= other@.subrange(n - k, n as int));
        }
        true
    }
}

/// A textual piece may become a label: one to 63 bytes, each
/// acceptable once lower-cased.
pub open spec fn piece_ok(p: Seq<u8>) -> bool {
    &&& 1 <= p.len() <= 63
    &&& forall|j: int| 0 <= j < p.len() ==> name_byte_ok(to_lower_byte(#[trigger] p[j]))
}

/// Every piece may become a label.
pub open spec fn pieces_ok(ps: Seq<Seq<u8>>) -> bool {
    forall|i: int| 0 <= i < ps.len() ==> piece_ok(#[trigger] ps[i])
}

/// What a textual domain name denotes: `.` is the root; otherwise the
/// dot-separated labels, lower-cased, with one optional trailing dot.
/// Empty labels, over-long labels and unacceptable bytes are rejected.
pub open spec fn parse_name(t: Seq<u8>) -> Option<Seq<Seq<u8>>> {
    if t.len() == 0 {
        None
    } else if t == seq![46u8] {
        Some(Seq::empty())
    } else {
        let body = if t[t.len() - 1] == 46 {
            t.drop_last()
        } else {
            t
        };
        if body.len() == 0 {
            None
        } else {
            let ps = split_on(body, 0, 46);
            if pieces_ok(ps) {
                Some(ps.map(|i: int, p: Seq<u8>| lower_bytes(p)))
            } else {
                None
            }
        }
    }
}

/// The labels from position `i` on, each followed by one dot.
pub open spec fn labels_dotted(n: Seq<Seq<u8>>, i: int) -> Seq<u8>
    decreases n.len() - i,
{
    if i < 0 || i >= n.len() {
        Seq::empty()
    } else {
        n[i] + seq![46u8] + labels_dotted(n, i + 1)
    }
}

/// The labels from position `i` on, separated by dots, without a
/// trailing dot.
pub open spec fn join_from(n: Seq<Seq<u8>>, i: int) -> Seq<u8>
    decreases n.len() - i,
{
    if i < 0 || i >= n.len() {
        Seq::empty()
    } else if i == n.len() - 1 {
        n[i]
    } else {
        n[i] + seq![46u8] + join_from(n, i + 1)
    }
}

/// The canonical text of a name: `.` for the root, else every label
/// followed by a dot.
pub open spec fn name_text(n: Seq<Seq<u8>>) -> Seq<u8> {
    if n.len() == 0 {
        seq![46u8]
    } else {
        labels_dotted(n, 0)
    }
}

/// Dotted labels are the dot-joined labels plus the final dot.
proof fn lemma_dotted_join(n: Seq<Seq<u8>>, i: int)
    requires
        0 <= i < n.len(),
    ensures
        labels_dotted(n, i) == join_from(n, i) + seq![46u8],
    decreases n.len() - i,
{
    if i == n.len() - 1 {
        assert(labels_dotted(n, i + 1) =~= Seq::<u8>::empty());
        assert(n[i] + seq![46u8] + labels_dotted(n, i + 1) =~= n[i] + seq![46u8]);
    } else {
        lemma_dotted_join(n, i + 1);
        assert(n[i] + seq![46u8] + (join_from(n, i + 1) + seq![46u8]) =~= (n[i] + seq![46u8]
            + join_from(n, i + 1)) + seq![46u8]);
    }
}

/// Splitting the dot-joined labels restores the labels.
proof fn lemma_split_join(n: Seq<Seq<u8>>, i: int)
    requires
        0 <= i < n.len(),
        name_ok(n),
    ensures
        split_on(join_from(n, i), 0, 46) == n.skip(i),
    decreases n.len() - i,
{
    if i == n.len() - 1 {
        assert(label_ok(n[i]));
        lemma_split_single(n[i], 46);
        assert(seq![n[i]] =~= n.skip(i));
    } else {
        lemma_split_join(n, i + 1);
        assert(label_ok(n[i]));
        lemma_split_prefix(n[i], join_from(n, i + 1), 46);
        assert(seq![n[i]] + n.skip(i + 1) =~= n.skip(i));
    }
}

/// Writing a canonical name out and reading it back restores it
/// exactly: the textual form loses nothing.
pub proof fn lemma_name_round_trip(n: Seq<Seq<u8>>)
    requires
        name_ok(n),
    ensures
        parse_name(name_text(n)) == Some(n),
{
    if n.len() == 0 {
        assert(name_text(n) == seq![46u8]);
    } else {
        let t = name_text(n);
        lemma_dotted_join(n, 0);
        let body0 = join_from(n, 0);
        assert(label_ok(n[0]));
        assert(body0.len() >= 1);
        assert(t.len() == body0.len() + 1);
        assert(t != seq![46u8]) by {
            if t.len() == 1 {
                assert(body0.len() == 0);
            }
        }
        assert(t[t.len() - 1] == 46);
        assert(t.drop_last() =~= body0);
        lemma_split_join(n, 0);
        let ps = split_on(body0, 0, 46);
        assert(ps =~= n);
        assert forall|i: int| 0 <= i < ps.len() implies piece_ok(#[trigger] ps[i]) by {
            assert(label_ok(n[i]));
            assert forall|j: int| 0 <= j < n[i].len() implies name_byte_ok(
                to_lower_byte(#[trigger] n[i][j]),
            ) by {
                assert(name_byte_ok(n[i][j]));
            }
        }
        assert(ps.map(|i: int, p: Seq<u8>| lower_bytes(p)) =~~= n) by {
            assert forall|i: int| 0 <= i < ps.len() implies lower_bytes(ps[i]) =~= n[i] by {
                assert(label_ok(n[i]));
                assert forall|j: int| 0 <= j < n[i].len() implies to_lower_byte(n[i][j]) == n[i][
                    j
                ] by {
                    assert(name_byte_ok(n[i][j]));
                }
            }
        }
    }
}

impl DnsName {
    /// Read a domain name from its dotted text, canonicalizing to
    /// lower case; `.` is the root and one trailing dot is accepted.
    #[verifier::loop_isolation(false)]
    pub fn parse(t: &[u8]) -> (r: Option<DnsName>)
        ensures
            match r {
                Some(n) => parse_name(t@) == Some(n@) && n.wf(),
                None => parse_name(t@) is None,
            },
    {
        if t.len() == 0 {
            return None;
        }
        if t.len() == 1 && t[0] == 46 {
            proof {
                assert(t@ =~= seq![46u8]);
            }
            return Some(DnsName::root());
        }
        proof {
            assert(t@ != seq![46u8]) by {
                if t@.len() == 1 {
                    assert(t@[0] != 46);
                }
            }
        }
        let body_len: usize = if t[t.len() - 1] == 46 {
            t.len() - 1
        } else {
            t.len()
        };
        let ghost body = if t@[t@.len() - 1] == 46 {
            t@.drop_last()
        } else {
            t@
        };
        let mut body_vec: Vec<u8> = Vec::new();
        let mut i: usize = 0;
        while i < body_len
            invariant
                0 <= i <= body_len <= t@.len(),
                body_len == body.len(),
                body_vec@ =~= body.take(i as int),
                forall|j: int| 0 <= j < body.len() ==> body[j] == t@[j],
            decreases body_len - i,
        {
            body_vec.push(t[i]);
            i += 1;
        }
        proof {
            assert(body_vec@ =~= body);
        }
        let pieces = split_on_byte(body_vec.as_slice(), 46);
        let ghost ps = split_on(body, 0, 46);
        let mut labels: Vec<Vec<u8>> = Vec::new();
        let mut k: usize = 0;
        while k < pieces.len()
            invariant
                0 <= k <= pieces@.len(),
                ps == pieces@.map(|x: int, p: Vec<u8>| p@),
                labels@.len() == k,
                forall|x: int| 0 <= x < k ==> piece_ok(#[trigger] ps[x]),
                forall|x: int| 0 <= x < k ==> (#[trigger] labels@[x])@ == lower_bytes(ps[x]),
                forall|x: int| 0 <= x < k ==> label_ok((#[trigger] labels@[x])@),
            decreases pieces@.len() - k,
        {
            let piece = &pieces[k];
            if piece.len() < 1 || piece.len() > 63 {
                proof {
                    assert(ps[k as int] == piece@);
                    assert(!piece_ok(ps[k as int]));
                    assert(!pieces_ok(ps));
                }
                return None;
            }
            let mut label: Vec<u8> = Vec::new();
            let mut j: usize = 0;
            while j < piece.len()
                invariant
                    0 <= j <= piece@.len(),
                    1 <= piece@.len() <= 63,
                    ps[k as int] == piece@,
                    k < pieces@.len(),
                    ps == pieces@.map(|x: int, p: Vec<u8>| p@),
                    label@ =~= lower_bytes(piece@).take(j as int),
                    forall|x: int| 0 <= x < j ==> name_byte_ok(to_lower_byte(#[trigger] piece@[x])),
                decreases piece@.len() - j,
            {
                let b = lower_byte(piece[j]);
                let ok = 33 <= b && b <= 126 && b != 46 && b != 35 && b != 34 && b != 39 && !(65
                    <= b && b <= 90);
                if !ok {
                    proof {
                        assert(!name_byte_ok(to_lower_byte(piece@[j as int])));
                        assert(!piece_ok(ps[k as int]));
                        assert(!pieces_ok(ps));
                    }
                    return None;
                }
                label.push(b);
                j += 1;
            }
            proof {
                assert(label@ =~= lower_bytes(piece@));
                assert(piece_ok(ps[k as int]));
                assert(label_ok(label@)) by {
                    assert forall|x: int| 0 <= x < label@.len() implies name_byte_ok(
                        #[trigger] label@[x],
                    ) by {
                        assert(label@[x] == to_lower_byte(piece@[x]));
                    }
                }
            }
            labels.push(label);
            k += 1;
        }
        let n = DnsName { labels };
        proof {
            assert(pieces_ok(ps));
            assert(n@ =~~= ps.map(|i: int, p: Seq<u8>| lower_bytes(p)));
        }
        Some(n)
    }

    /// The canonical dotted text of the name: `.` for the root, else
    /// every label followed by a dot.
    pub fn to_text(&self) -> (r: Vec<u8>)
        ensures
            r@ == name_text(self@),
    {
        let mut out: Vec<u8> = Vec::new();
        if self.labels.len() == 0 {
            out.push(46);
            proof {
                assert(out@ =~= seq![46u8]);
            }
            return out;
        }
        let mut i: usize = 0;
        while i < self.labels.len()
            invariant
                0 <= i <= self.labels.len(),
                self.labels.len() == self@.len(),
                labels_dotted(self@, 0) == out@ + labels_dotted(self@, i as int),
            decreases self.labels.len() - i,
        {
            let ghost pre = out@;
            let label = &self.labels[i];
            let mut j: usize = 0;
            while j < label.len()
                invariant
                    0 <= j <= label@.len(),
                    self@[i as int] == label@,
                    i < self@.len(),
                    out@ =~= pre + label@.take(j as int),
                decreases label@.len() - j,
            {
                out.push(label[j]);
                j += 1;
            }
            out.push(46);
            proof {
                assert(out@ =~= pre + (self@[i as int] + seq![46u8]));
                assert(labels_dotted(self@, i as int) == self@[i as int] + seq![46u8]
                    + labels_dotted(self@, i + 1));
                assert(pre + (self@[i as int] + seq![46u8]) + labels_dotted(self@, i + 1) =~= pre
                    + (self@[i as int] + seq![46u8] + labels_dotted(self@, i + 1)));
            }
            i += 1;
        }
        proof {
            assert(labels_dotted(self@, self@.len() as int) =~= Seq::<u8>::empty());
            assert(out@ + Seq::<u8>::empty() =~= out@);
        }
        out
    }
}

/// The root name is a suffix of every name.
pub proof fn lemma_root_is_suffix(b: Seq<Seq<u8>>)
    ensures
        suffix_of(Seq::<Seq<u8>>::empty(), b),
{
    assert(Seq::<Seq<u8>>::empty() =~= b.subrange(b.len() as int, b.len() as int));
}

/// Two suffixes of the same name with the same label count are the same
/// name: a longest suffix match can never tie between distinct origins.
pub proof fn lemma_suffix_same_len(a1: Seq<Seq<u8>>, a2: Seq<Seq<u8>>, b: Seq<Seq<u8>>)
    requires
        suffix_of(a1, b),
        suffix_of(a2, b),
        a1.len() == a2.len(),
    ensures
        a1 == a2,
{
}

} // verus!
