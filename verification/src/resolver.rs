//! The upstream-resolver factory and the reconciler.
//!
//! The factory turns one rule into the full parameter set of an upstream
//! DNS client pool. The reconciler owns the table from file name to
//! installed rule and drives the routing catalog from config updates.

use vstd::prelude::*;

use crate::bytes::{bytes_eq, copy_bytes};
use crate::catalog::{keep_other_entries, CatalogEntryV, RoutingCatalog};
use crate::config::{Config, ConfigUpdate, ConfigV, Protocol};
use crate::dns_name::DnsName;
use crate::forwarder::{forwarder_of, Forwarder};
use crate::ip_addr::IpAddress;

verus! {

/// Parameters of one upstream nameserver connection.
#[derive(Clone, Copy, PartialEq, Eq, Structural, Debug)]
pub struct NameServerSpec {
    pub addr: IpAddress,
    /// Upstream DNS port; always 53.
    pub port: u16,
    pub protocol: Protocol,
    /// A NODATA or NXDOMAIN answer from this upstream is authoritative
    /// for the query and is not retried on the next upstream.
    pub trust_negative_responses: bool,
}

/// Ghost image of a [`ResolverSpec`].
pub ghost struct ResolverSpecV {
    pub nameservers: Seq<NameServerSpec>,
    pub search_names: Seq<Seq<Seq<u8>>>,
    pub timeout_secs: u64,
    pub cache_size: usize,
    pub rotate: bool,
    pub use_hosts_file: bool,
    pub positive_min_ttl_secs: u64,
    pub positive_max_ttl_secs: u64,
    pub negative_min_ttl_secs: u64,
    pub negative_max_ttl_secs: u64,
}

/// The full parameter set of one zone's upstream resolver: which
/// nameservers to ask, over which transport, and the client options.
/// The async client pool itself is built outside the library from
/// exactly these values.
pub struct ResolverSpec {
    pub nameservers: Vec<NameServerSpec>,
    /// Search suffixes; always empty here, as queries arriving from the
    /// network are already fully qualified.
    pub search_names: Vec<DnsName>,
    /// Per-query upstream timeout.
    pub timeout_secs: u64,
    /// Response cache entries; zero, so TTLs are honored downstream only.
    pub cache_size: usize,
    /// Round-robin across the nameservers per query.
    pub rotate: bool,
    pub use_hosts_file: bool,
    pub positive_min_ttl_secs: u64,
    pub positive_max_ttl_secs: u64,
    pub negative_min_ttl_secs: u64,
    pub negative_max_ttl_secs: u64,
}

impl View for ResolverSpec {
    type V = ResolverSpecV;

    open spec fn view(&self) -> ResolverSpecV {
        ResolverSpecV {
            nameservers: self.nameservers@,
            search_names: self.search_names@.map(|i: int, n: DnsName| n@),
            timeout_secs: self.timeout_secs,
            cache_size: self.cache_size,
            rotate: self.rotate,
            use_hosts_file: self.use_hosts_file,
            positive_min_ttl_secs: self.positive_min_ttl_secs,
            positive_max_ttl_secs: self.positive_max_ttl_secs,
            negative_min_ttl_secs: self.negative_min_ttl_secs,
            negative_max_ttl_secs: self.negative_max_ttl_secs,
        }
    }
}

/// What the factory produces for given upstreams, search suffixes and
/// transport: a one-second query timeout, caching off, `/etc/hosts` off,
/// rotation on, TTL bounds pinned to zero, and one nameserver entry per
/// address on port 53 with negative answers trusted.
pub open spec fn resolver_spec_for(
    nameservers: Seq<IpAddress>,
    search_names: Seq<Seq<Seq<u8>>>,
    protocol: Protocol,
) -> ResolverSpecV {
    ResolverSpecV {
        nameservers: nameservers.map(
            |i: int, a: IpAddress| NameServerSpec {
                addr: a,
                port: 53,
                protocol: protocol,
                trust_negative_responses: true,
            },
        ),
        search_names: search_names,
        timeout_secs: 1,
        cache_size: 0,
        rotate: true,
        use_hosts_file: false,
        positive_min_ttl_secs: 0,
        positive_max_ttl_secs: 0,
        negative_min_ttl_secs: 0,
        negative_max_ttl_secs: 0,
    }
}

/// Build the upstream-resolver parameters for a set of nameservers.
pub fn create_resolver(
    nameservers: Vec<IpAddress>,
    search_names: Vec<DnsName>,
    protocol: Protocol,
) -> (r: ResolverSpec)
    ensures
        r@ == resolver_spec_for(
            nameservers@,
            search_names@.map(|i: int, n: DnsName| n@),
            protocol,
        ),
{
    let mut servers: Vec<NameServerSpec> = Vec::new();
    let mut i: usize = 0;
    while i < nameservers.len()
        invariant
            i <= nameservers.len(),
            servers@.len() == i,
            forall|j: int| 0 <= j < i ==> servers@[j] == (NameServerSpec {
                addr: nameservers@[j],
                port: 53u16,
                protocol: protocol,
                trust_negative_responses: true,
            }),
        decreases nameservers.len() - i,
    {
        servers.push(NameServerSpec {
            addr: nameservers[i],
            port: 53,
            protocol,
            trust_negative_responses: true,
        });
        i += 1;
    }
    let r = ResolverSpec {
        nameservers: servers,
        search_names,
        timeout_secs: 1,
        cache_size: 0,
        rotate: true,
        use_hosts_file: false,
        positive_min_ttl_secs: 0,
        positive_max_ttl_secs: 0,
        negative_min_ttl_secs: 0,
        negative_max_ttl_secs: 0,
    };
    proof {
        assert(r@.nameservers =~= resolver_spec_for(
            nameservers@,
            search_names@.map(|i: int, n: DnsName| n@),
            protocol,
        ).nameservers);
    }
    r
}

/// What [`Config::make_resolvers`] produces for a rule: its forwarders,
/// no search suffixes, its transport.
pub open spec fn resolver_spec_of(c: ConfigV) -> ResolverSpecV {
    resolver_spec_for(c.forwarders, Seq::empty(), c.protocol)
}

impl Config {
    /// Build the upstream-resolver parameters for this rule: its
    /// forwarders over its transport, with no search suffixes.
    pub fn make_resolvers(&self) -> (r: ResolverSpec)
        ensures
            r@ == resolver_spec_of(self@),
    {
        let fwd = copy_ip_list(&self.forwarders);
        let no_search: Vec<DnsName> = Vec::new();
        proof {
            assert(no_search@.map(|i: int, n: DnsName| n@) =~= Seq::<Seq<Seq<u8>>>::empty());
        }
        create_resolver(fwd, no_search, self.protocol)
    }
}

/// Copy a list of addresses.
fn copy_ip_list(v: &Vec<IpAddress>) -> (r: Vec<IpAddress>)
    ensures
        r@ == v@,
{
    let mut out: Vec<IpAddress> = Vec::new();
    let mut i: usize = 0;
    while i < v.len()
        invariant
            i <= v.len(),
            out@ =~= v@.take(i as int),
        decreases v.len() - i,
    {
        out.push(v[i]);
        i += 1;
    }
    proof {
        assert(out@ =~= v@);
    }
    out
}

/// Ghost image of a [`FileEntry`].
pub ghost struct FileEntryV {
    pub filename: Seq<u8>,
    pub config: ConfigV,
}

/// One installed rule, remembered under the file it came from.
pub struct FileEntry {
    pub filename: Vec<u8>,
    pub config: Config,
}

impl View for FileEntry {
    type V = FileEntryV;

    open spec fn view(&self) -> FileEntryV {
        FileEntryV { filename: self.filename@, config: self.config@ }
    }
}

/// The rule installed from file `k`, if any: the first entry carrying
/// that file name (under [`files_unique`], the only one).
pub open spec fn tbl_get(s: Seq<FileEntryV>, k: Seq<u8>) -> Option<ConfigV>
    decreases s.len(),
{
    if s.len() == 0 {
        None
    } else if s[0].filename == k {
        Some(s[0].config)
    } else {
        tbl_get(s.drop_first(), k)
    }
}

/// Some entry carries exactly this file name.
pub open spec fn has_file(s: Seq<FileEntryV>, k: Seq<u8>) -> bool {
    exists|i: int| 0 <= i < s.len() && (#[trigger] s[i]).filename == k
}

/// The entries whose file is not `k`, in order.
pub open spec fn tbl_rm(s: Seq<FileEntryV>, k: Seq<u8>) -> Seq<FileEntryV>
    decreases s.len(),
{
    if s.len() == 0 {
        Seq::empty()
    } else if s[0].filename == k {
        tbl_rm(s.drop_first(), k)
    } else {
        seq![s[0]] + tbl_rm(s.drop_first(), k)
    }
}

/// No two entries carry the same file name.
pub open spec fn files_unique(s: Seq<FileEntryV>) -> bool {
    forall|i: int, j: int|
        0 <= i < j < s.len() ==> (#[trigger] s[i]).filename != (#[trigger] s[j]).filename
}

/// A rule is installed from `k` exactly when an entry carries `k`.
pub proof fn lemma_tbl_get_has(s: Seq<FileEntryV>, k: Seq<u8>)
    ensures
        (tbl_get(s, k) is Some) == has_file(s, k),
    decreases s.len(),
{
    if s.len() == 0 {
    } else if s[0].filename == k {
        assert(has_file(s, k));
    } else {
        lemma_tbl_get_has(s.drop_first(), k);
        if has_file(s.drop_first(), k) {
            let i = choose|i: int|
                0 <= i < s.drop_first().len() && (#[trigger] s.drop_first()[i]).filename == k;
            assert(s[i + 1].filename == k);
        }
        if has_file(s, k) {
            let i = choose|i: int| 0 <= i < s.len() && (#[trigger] s[i]).filename == k;
            assert(s.drop_first()[i - 1].filename == k);
        }
    }
}

/// Dropping file `k` leaves every other file's rule unchanged and `k` gone.
pub proof fn lemma_tbl_rm_get(s: Seq<FileEntryV>, k: Seq<u8>, m: Seq<u8>)
    ensures
        tbl_get(tbl_rm(s, k), m) == (if m == k {
            None::<ConfigV>
        } else {
            tbl_get(s, m)
        }),
    decreases s.len(),
{
    if s.len() == 0 {
    } else if s[0].filename == k {
        lemma_tbl_rm_get(s.drop_first(), k, m);
    } else {
        lemma_tbl_rm_get(s.drop_first(), k, m);
        let t = tbl_rm(s.drop_first(), k);
        let whole = seq![s[0]] + t;
        assert(whole[0] == s[0]);
        assert(whole.drop_first() =~= t);
    }
}

/// Without a rule from `k`, dropping `k` changes nothing.
pub proof fn lemma_tbl_rm_id(s: Seq<FileEntryV>, k: Seq<u8>)
    requires
        !has_file(s, k),
    ensures
        tbl_rm(s, k) == s,
    decreases s.len(),
{
    if s.len() == 0 {
        assert(tbl_rm(s, k) =~= s);
    } else {
        assert(s[0].filename != k);
        assert forall|i: int| 0 <= i < s.drop_first().len() implies (#[trigger] s.drop_first()[
            i
        ]).filename != k by {
            assert(s.drop_first()[i] == s[i + 1]);
        }
        lemma_tbl_rm_id(s.drop_first(), k);
        assert(seq![s[0]] + s.drop_first() =~= s);
    }
}

/// Dropping a file keeps the entries unique and their files a subset of
/// what was there, without the dropped one.
pub proof fn lemma_tbl_rm_unique(s: Seq<FileEntryV>, k: Seq<u8>)
    requires
        files_unique(s),
    ensures
        files_unique(tbl_rm(s, k)),
        !has_file(tbl_rm(s, k), k),
        forall|m: Seq<u8>| #[trigger] has_file(tbl_rm(s, k), m) ==> has_file(s, m),
    decreases s.len(),
{
    if s.len() == 0 {
    } else {
        let rest = s.drop_first();
        assert forall|i: int, j: int| 0 <= i < j < rest.len() implies (#[trigger] rest[i]).filename
            != (#[trigger] rest[j]).filename by {
            assert(rest[i] == s[i + 1] && rest[j] == s[j + 1]);
        }
        lemma_tbl_rm_unique(rest, k);
        let t = tbl_rm(rest, k);
        if s[0].filename == k {
        } else {
            let whole = seq![s[0]] + t;
            assert forall|m: Seq<u8>| #[trigger] has_file(whole, m) implies (s[0].filename == m
                || has_file(t, m)) by {
                let i = choose|i: int| 0 <= i < whole.len() && (#[trigger] whole[i]).filename == m;
                if i > 0 {
                    assert(whole[i] == t[i - 1]);
                }
            }
            assert forall|m: Seq<u8>| #[trigger] has_file(whole, m) implies has_file(s, m) by {
                if s[0].filename == m {
                    assert(s[0] == s[0]);
                } else {
                    assert(has_file(t, m));
                    let i = choose|i: int| 0 <= i < t.len() && (#[trigger] t[i]).filename == m;
                    assert(has_file(rest, m));
                    let j = choose|j: int| 0 <= j < rest.len() && (#[trigger] rest[j]).filename == m;
                    assert(s[j + 1].filename == m);
                }
            }
            assert(!has_file(whole, k)) by {
                if has_file(whole, k) {
                    let i = choose|i: int|
                        0 <= i < whole.len() && (#[trigger] whole[i]).filename == k;
                    if i > 0 {
                        assert(whole[i] == t[i - 1]);
                        assert(has_file(t, k));
                    }
                }
            }
            assert forall|i: int, j: int| 0 <= i < j < whole.len() implies (#[trigger] whole[
                i
            ]).filename != (#[trigger] whole[j]).filename by {
                if i == 0 {
                    assert(whole[j] == t[j - 1]);
                    if s[0].filename == whole[j].filename {
                        assert(has_file(t, s[0].filename));
                        assert(has_file(rest, s[0].filename));
                        let w = choose|w: int|
                            0 <= w < rest.len() && (#[trigger] rest[w]).filename == s[0].filename;
                        assert(s[w + 1].filename == s[0].filename);
                    }
                } else {
                    assert(whole[i] == t[i - 1] && whole[j] == t[j - 1]);
                }
            }
        }
    }
}

/// Removing the only entry from file `k` is dropping `k`.
pub proof fn lemma_remove_is_tbl_rm(s: Seq<FileEntryV>, k: Seq<u8>, i: int)
    requires
        0 <= i < s.len(),
        s[i].filename == k,
        forall|j: int| 0 <= j < s.len() && j != i ==> (#[trigger] s[j]).filename != k,
    ensures
        s.remove(i) == tbl_rm(s, k),
    decreases s.len(),
{
    if i == 0 {
        assert forall|j: int| 0 <= j < s.drop_first().len() implies (#[trigger] s.drop_first()[
            j
        ]).filename != k by {
            assert(s.drop_first()[j] == s[j + 1]);
        }
        lemma_tbl_rm_id(s.drop_first(), k);
        assert(s.remove(0) =~= s.drop_first());
    } else {
        let rest = s.drop_first();
        assert forall|j: int|
            0 <= j < rest.len() && j != i - 1 implies (#[trigger] rest[j]).filename != k by {
            assert(rest[j] == s[j + 1]);
        }
        assert(rest[i - 1] == s[i]);
        lemma_remove_is_tbl_rm(rest, k, i - 1);
        assert(s[0].filename != k);
        assert(s.remove(i) =~= seq![s[0]] + rest.remove(i - 1));
    }
}

/// `tbl_get` returns the first entry carrying the file name.
proof fn lemma_tbl_get_first_match(s: Seq<FileEntryV>, k: Seq<u8>, i: int)
    requires
        0 <= i < s.len(),
        s[i].filename == k,
        forall|j: int| 0 <= j < i ==> (#[trigger] s[j]).filename != k,
    ensures
        tbl_get(s, k) == Some(s[i].config),
    decreases s.len(),
{
    if i == 0 {
    } else {
        assert(s[0].filename != k);
        assert(s.drop_first()[i - 1] == s[i]);
        assert forall|j: int| 0 <= j < i - 1 implies (#[trigger] s.drop_first()[j]).filename
            != k by {
            assert(s.drop_first()[j] == s[j + 1]);
        }
        lemma_tbl_get_first_match(s.drop_first(), k, i - 1);
    }
}

/// Appending an entry leaves earlier files' rules in place; a fresh
/// file gains its rule.
pub proof fn lemma_tbl_get_push(s: Seq<FileEntryV>, e: FileEntryV, m: Seq<u8>)
    ensures
        tbl_get(s.push(e), m) == (if tbl_get(s, m) is Some {
            tbl_get(s, m)
        } else if e.filename == m {
            Some(e.config)
        } else {
            None::<ConfigV>
        }),
    decreases s.len(),
{
    if s.len() == 0 {
        assert(s.push(e).len() == 1);
        assert(s.push(e)[0] == e);
        assert(s.push(e).drop_first() =~= Seq::<FileEntryV>::empty());
        assert(tbl_get(s.push(e).drop_first(), m) is None);
        assert(tbl_get(s, m) is None);
    } else {
        lemma_tbl_get_push(s.drop_first(), e, m);
        assert(s.push(e)[0] == s[0]);
        assert(s.push(e).drop_first() =~= s.drop_first().push(e));
        if s[0].filename == m {
            assert(tbl_get(s.push(e), m) == Some(s[0].config));
        } else {
            assert(tbl_get(s.push(e), m) == tbl_get(s.drop_first().push(e), m));
        }
    }
}

/// No entry from file `k` survives dropping `k`.
pub proof fn lemma_tbl_rm_all(s: Seq<FileEntryV>, k: Seq<u8>)
    ensures
        !has_file(tbl_rm(s, k), k),
    decreases s.len(),
{
    if s.len() == 0 {
    } else {
        lemma_tbl_rm_all(s.drop_first(), k);
        if s[0].filename != k {
            let t = tbl_rm(s.drop_first(), k);
            let whole = seq![s[0]] + t;
            if has_file(whole, k) {
                let i = choose|i: int| 0 <= i < whole.len() && (#[trigger] whole[i]).filename == k;
                assert(i > 0);
                assert(whole[i] == t[i - 1]);
            }
        }
    }
}

/// An entry from another file survives dropping `k`.
pub proof fn lemma_tbl_rm_keeps(s: Seq<FileEntryV>, k: Seq<u8>, i: int)
    requires
        0 <= i < s.len(),
        s[i].filename != k,
    ensures
        exists|x: int| 0 <= x < tbl_rm(s, k).len() && #[trigger] tbl_rm(s, k)[x] == s[i],
    decreases s.len(),
{
    let t = tbl_rm(s, k);
    if s.len() == 0 {
    } else if s[0].filename == k {
        lemma_tbl_rm_keeps(s.drop_first(), k, i - 1);
        assert(s.drop_first()[i - 1] == s[i]);
    } else {
        let rest_t = tbl_rm(s.drop_first(), k);
        if i == 0 {
            assert(t[0] == s[0]);
        } else {
            assert(s.drop_first()[i - 1] == s[i]);
            lemma_tbl_rm_keeps(s.drop_first(), k, i - 1);
            let x = choose|x: int| 0 <= x < rest_t.len() && #[trigger] rest_t[x] == s[i];
            assert(t[x + 1] == rest_t[x]);
        }
    }
}

/// Dropping a file keeps the surviving entries in their order: any two
/// of them stood in that order before.
pub proof fn lemma_tbl_rm_pairs(s: Seq<FileEntryV>, k: Seq<u8>, x: int, y: int)
    requires
        0 <= x < y < tbl_rm(s, k).len(),
    ensures
        exists|i: int, j: int|
            0 <= i < j < s.len() && #[trigger] s[i] == tbl_rm(s, k)[x] && #[trigger] s[j] == tbl_rm(
                s,
                k,
            )[y],
    decreases s.len(),
{
    let t = tbl_rm(s, k);
    if s.len() == 0 {
    } else if s[0].filename == k {
        lemma_tbl_rm_pairs(s.drop_first(), k, x, y);
        let (i, j): (int, int) = choose|i: int, j: int|
            0 <= i < j < s.drop_first().len() && #[trigger] s.drop_first()[i] == tbl_rm(
                s.drop_first(),
                k,
            )[x] && #[trigger] s.drop_first()[j] == tbl_rm(s.drop_first(), k)[y];
        assert(s[i + 1] == t[x] && s[j + 1] == t[y]);
    } else {
        let rest_t = tbl_rm(s.drop_first(), k);
        let whole = seq![s[0]] + rest_t;
        if x == 0 {
            assert(whole[0] == s[0]);
            assert(whole[y] == rest_t[y - 1]);
            lemma_tbl_rm_values(s.drop_first(), k, y - 1);
            let j = choose|j: int|
                0 <= j < s.drop_first().len() && #[trigger] s.drop_first()[j] == rest_t[y - 1];
            assert(s[0] == t[x] && s[j + 1] == t[y]);
            assert(0 < j + 1 < s.len());
        } else {
            assert(whole[x] == rest_t[x - 1] && whole[y] == rest_t[y - 1]);
            lemma_tbl_rm_pairs(s.drop_first(), k, x - 1, y - 1);
            let (i, j): (int, int) = choose|i: int, j: int|
                0 <= i < j < s.drop_first().len() && #[trigger] s.drop_first()[i] == rest_t[x - 1]
                    && #[trigger] s.drop_first()[j] == rest_t[y - 1];
            assert(s[i + 1] == t[x] && s[j + 1] == t[y]);
        }
    }
}

/// Appending an entry from the dropped file changes nothing once it is
/// dropped.
pub proof fn lemma_tbl_rm_push_same(s: Seq<FileEntryV>, e: FileEntryV, k: Seq<u8>)
    requires
        e.filename == k,
    ensures
        tbl_rm(s.push(e), k) == tbl_rm(s, k),
    decreases s.len(),
{
    if s.len() == 0 {
        assert(s.push(e)[0] == e);
        assert(s.push(e).drop_first() =~= Seq::<FileEntryV>::empty());
        assert(tbl_rm(s.push(e), k) == tbl_rm(s.push(e).drop_first(), k));
        assert(tbl_rm(s, k) =~= Seq::<FileEntryV>::empty());
    } else {
        lemma_tbl_rm_push_same(s.drop_first(), e, k);
        assert(s.push(e)[0] == s[0]);
        assert(s.push(e).drop_first() =~= s.drop_first().push(e));
    }
}

/// The rule `tbl_get` finds is carried by some entry.
pub proof fn lemma_tbl_get_witness(s: Seq<FileEntryV>, k: Seq<u8>)
    requires
        tbl_get(s, k) is Some,
    ensures
        exists|i: int|
            0 <= i < s.len() && (#[trigger] s[i]).filename == k && s[i].config == tbl_get(
                s,
                k,
            )->Some_0,
    decreases s.len(),
{
    if s.len() == 0 {
    } else if s[0].filename == k {
        assert(s[0].filename == k && s[0].config == tbl_get(s, k)->Some_0);
    } else {
        lemma_tbl_get_witness(s.drop_first(), k);
        let i = choose|i: int|
            0 <= i < s.drop_first().len() && (#[trigger] s.drop_first()[i]).filename == k
                && s.drop_first()[i].config == tbl_get(s.drop_first(), k)->Some_0;
        assert(s[i + 1].filename == k && s[i + 1].config == tbl_get(s, k)->Some_0);
    }
}

/// Ghost image of a [`ResolverCollection`]: the reconciler's table and
/// the routing catalog it drives.
pub ghost struct CollectionV {
    pub configs: Seq<FileEntryV>,
    pub catalog: Seq<CatalogEntryV>,
}

/// The reconciler state after installing rule `c` from file `f`: the
/// table maps `f` to `c`; when `f` previously held a rule for another
/// zone, that zone's route leaves; the rule's zone routes to a
/// Forwarder freshly built from `c`.
pub open spec fn step_set(v: CollectionV, f: Seq<u8>, c: ConfigV) -> CollectionV {
    let base = match tbl_get(v.configs, f) {
        Some(oc) => if oc.domain_name != c.domain_name {
            keep_other_entries(v.catalog, oc.domain_name)
        } else {
            v.catalog
        },
        None => v.catalog,
    };
    CollectionV {
        configs: tbl_rm(v.configs, f).push(FileEntryV { filename: f, config: c }),
        catalog: keep_other_entries(base, c.domain_name).push(
            CatalogEntryV { origin: c.domain_name, forwarder: forwarder_of(c) },
        ),
    }
}

/// The reconciler state after file `f` disappeared: its rule leaves the
/// table and that rule's zone leaves the catalog; with no rule from
/// `f`, nothing changes.
pub open spec fn step_remove(v: CollectionV, f: Seq<u8>) -> CollectionV {
    match tbl_get(v.configs, f) {
        Some(oc) => CollectionV {
            configs: tbl_rm(v.configs, f),
            catalog: keep_other_entries(v.catalog, oc.domain_name),
        },
        None => v,
    }
}

/// A config update that carries no rule cannot be installed.
#[derive(Clone, Copy, PartialEq, Eq, Structural, Debug)]
pub enum ReconcileError {
    MissingConfig,
}

/// The reconciler: owns the table from file name to installed rule, and
/// mutates the routing catalog accordingly. Driven by one task; the
/// table is never observed from outside.
pub struct ResolverCollection {
    configs: Vec<FileEntry>,
    catalog: RoutingCatalog,
}

impl View for ResolverCollection {
    type V = CollectionV;

    closed spec fn view(&self) -> CollectionV {
        CollectionV {
            configs: self.configs@.map(|i: int, e: FileEntry| e@),
            catalog: self.catalog@,
        }
    }
}

impl ResolverCollection {
    /// File names unique in the table, origins unique in the catalog,
    /// and every installed rule valid.
    pub open spec fn wf(&self) -> bool {
        &&& files_unique(self@.configs)
        &&& crate::catalog::origins_unique(self@.catalog)
        &&& forall|i: int|
            0 <= i < self@.configs.len() ==> (#[trigger] self@.configs[i]).config.wf()
    }

    /// A fresh reconciler around a routing catalog.
    pub fn new(catalog: RoutingCatalog) -> (r: ResolverCollection)
        requires
            catalog.wf(),
        ensures
            r@.configs == Seq::<FileEntryV>::empty(),
            r@.catalog == catalog@,
            r.wf(),
    {
        let r = ResolverCollection { configs: Vec::new(), catalog };
        proof {
            assert(r@.configs =~= Seq::<FileEntryV>::empty());
        }
        r
    }

    /// Read access to the routing catalog.
    pub fn catalog(&self) -> (r: &RoutingCatalog)
        ensures
            r@ == self@.catalog,
    {
        &self.catalog
    }

    /// The index of the entry from file `k`, if any.
    fn find_file(&self, k: &Vec<u8>) -> (r: Option<usize>)
        ensures
            match r {
                Some(i) => i < self@.configs.len() && self@.configs[i as int].filename == k@
                    && forall|j: int|
                    0 <= j < i ==> (#[trigger] self@.configs[j]).filename != k@,
                None => !has_file(self@.configs, k@),
            },
    {
        let mut i: usize = 0;
        while i < self.configs.len()
            invariant
                i <= self.configs.len(),
                self.configs.len() == self@.configs.len(),
                forall|j: int| 0 <= j < i ==> (#[trigger] self@.configs[j]).filename != k@,
            decreases self.configs.len() - i,
        {
            if bytes_eq(self.configs[i].filename.as_slice(), k.as_slice()) {
                return Some(i);
            }
            i += 1;
        }
        None
    }

    /// Install the rule an update carries: remember it under the
    /// update's file name, drop the route of a zone the file no longer
    /// names, and route the rule's zone through a Forwarder built from
    /// it. An update without a rule is refused unchanged.
    pub fn set_config(&mut self, update: ConfigUpdate) -> (r: Result<(), ReconcileError>)
        requires
            old(self).wf(),
            update.wf(),
        ensures
            final(self).wf(),
            match update@.config {
                Some(c) => r is Ok && final(self)@ == step_set(
                    old(self)@,
                    update@.config_filename,
                    c,
                ),
                None => r is Err && final(self)@ == old(self)@,
            },
    {
        let ghost pre = self@;
        let config = match update.config {
            Some(c) => c,
            None => {
                return Err(ReconcileError::MissingConfig);
            },
        };
        let filename = update.config_filename;
        match self.find_file(&filename) {
            Some(i) => {
                proof {
                    lemma_tbl_get_first_match(pre.configs, filename@, i as int);
                }
                if !self.configs[i].config.domain_name.eq_name(&config.domain_name) {
                    let old_name = self.configs[i].config.domain_name.duplicate();
                    self.catalog.remove(&old_name);
                }
                proof {
                    assert forall|j: int|
                        0 <= j < pre.configs.len() && j != i implies (#[trigger] pre.configs[
                        j
                    ]).filename != filename@ by {}
                    lemma_remove_is_tbl_rm(pre.configs, filename@, i as int);
                }
                self.configs.remove(i);
                proof {
                    assert(self@.configs =~= pre.configs.remove(i as int));
                }
            },
            None => {
                proof {
                    lemma_tbl_get_has(pre.configs, filename@);
                    lemma_tbl_rm_id(pre.configs, filename@);
                }
            },
        }
        proof {
            lemma_tbl_rm_unique(pre.configs, filename@);
        }
        let ghost kept = self@.configs;
        let fwd = Forwarder::from_config(&config);
        let domain = config.domain_name.duplicate();
        self.configs.push(FileEntry { filename, config });
        proof {
            assert(self@.configs =~= kept.push(
                FileEntryV { filename: filename@, config: config@ },
            ));
            assert forall|i: int, j: int| 0 <= i < j < self@.configs.len() implies (
            #[trigger] self@.configs[i]).filename != (#[trigger] self@.configs[j]).filename by {
                if j == self@.configs.len() - 1 {
                    assert(has_file(kept, self@.configs[i].filename));
                }
            }
            assert forall|i: int| 0 <= i < self@.configs.len() implies (#[trigger] self@.configs[
                i
            ]).config.wf() by {
                if i < self@.configs.len() - 1 {
                    assert(self@.configs[i] == kept[i]);
                    assert(has_file(kept, kept[i].filename));
                    let w = choose|w: int|
                        0 <= w < pre.configs.len() && (#[trigger] pre.configs[w]).filename == kept[
                            i
                        ].filename;
                    assert(pre.configs[w].config.wf());
                    lemma_tbl_rm_values(pre.configs, filename@, i);
                }
            }
        }
        self.catalog.upsert(domain, fwd);
        Ok(())
    }

    /// Forget the file an update names: its rule leaves the table and
    /// that rule's zone leaves the catalog. Unknown files are a no-op.
    pub fn remove_config(&mut self, update: ConfigUpdate) -> (r: Result<(), ReconcileError>)
        requires
            old(self).wf(),
        ensures
            final(self).wf(),
            r is Ok,
            final(self)@ == step_remove(old(self)@, update@.config_filename),
    {
        let ghost pre = self@;
        let filename = update.config_filename;
        match self.find_file(&filename) {
            Some(i) => {
                proof {
                    lemma_tbl_get_first_match(pre.configs, filename@, i as int);
                    assert forall|j: int|
                        0 <= j < pre.configs.len() && j != i implies (#[trigger] pre.configs[
                        j
                    ]).filename != filename@ by {}
                    lemma_remove_is_tbl_rm(pre.configs, filename@, i as int);
                    lemma_tbl_rm_unique(pre.configs, filename@);
                }
                let old_name = self.configs[i].config.domain_name.duplicate();
                self.configs.remove(i);
                proof {
                    assert(self@.configs =~= pre.configs.remove(i as int));
                    assert forall|w: int|
                        0 <= w < self@.configs.len() implies (#[trigger] self@.configs[
                        w
                    ]).config.wf() by {
                        lemma_tbl_rm_values(pre.configs, filename@, w);
                    }
                }
                self.catalog.remove(&old_name);
            },
            None => {
                proof {
                    lemma_tbl_get_has(pre.configs, filename@);
                }
            },
        }
        Ok(())
    }
}

/// Every entry left by `tbl_rm` was an entry before.
pub proof fn lemma_tbl_rm_values(s: Seq<FileEntryV>, k: Seq<u8>, i: int)
    requires
        0 <= i < tbl_rm(s, k).len(),
    ensures
        exists|j: int| 0 <= j < s.len() && #[trigger] s[j] == tbl_rm(s, k)[i],
    decreases s.len(),
{
    if s.len() == 0 {
    } else if s[0].filename == k {
        lemma_tbl_rm_values(s.drop_first(), k, i);
        let j = choose|j: int|
            0 <= j < s.drop_first().len() && #[trigger] s.drop_first()[j] == tbl_rm(
                s.drop_first(),
                k,
            )[i];
        assert(s[j + 1] == tbl_rm(s, k)[i]);
    } else {
        let whole = seq![s[0]] + tbl_rm(s.drop_first(), k);
        if i == 0 {
            assert(whole[0] == s[0]);
        } else {
            assert(whole[i] == tbl_rm(s.drop_first(), k)[i - 1]);
            lemma_tbl_rm_values(s.drop_first(), k, i - 1);
            let j = choose|j: int|
                0 <= j < s.drop_first().len() && #[trigger] s.drop_first()[j] == tbl_rm(
                    s.drop_first(),
                    k,
                )[i - 1];
            assert(s[j + 1] == whole[i]);
        }
    }
}

} // verus!
