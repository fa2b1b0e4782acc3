//! The routing catalog: an ordered mapping from zone origin to
//! Forwarder, looked up by longest-suffix match on the query name.

use vstd::prelude::*;

use crate::config::{ConfigUpdate, ConfigUpdateV};
use crate::dns_name::{suffix_of, DnsName};
use crate::forwarder::{Forwarder, ForwarderV, ResponseCode};
use crate::resolver::{step_remove, step_set, CollectionV, ResolverCollection};

verus! {

/// DNS UPDATE opcode; such requests are never applied here.
pub const OPCODE_UPDATE: u16 = 5;

/// Query type for a full zone transfer.
pub const QTYPE_AXFR: u16 = 252;

/// Query type for an incremental zone transfer.
pub const QTYPE_IXFR: u16 = 251;

/// NSEC record type.
pub const QTYPE_NSEC: u16 = 47;

/// NSEC3 record type.
pub const QTYPE_NSEC3: u16 = 50;

/// Ghost image of a [`CatalogEntry`].
pub ghost struct CatalogEntryV {
    pub origin: Seq<Seq<u8>>,
    pub forwarder: ForwarderV,
}

/// One route: queries at or below `origin` go through `forwarder`.
pub struct CatalogEntry {
    pub origin: DnsName,
    pub forwarder: Forwarder,
}

impl View for CatalogEntry {
    type V = CatalogEntryV;

    open spec fn view(&self) -> CatalogEntryV {
        CatalogEntryV { origin: self.origin@, forwarder: self.forwarder@ }
    }
}

/// The route installed for exactly `name`, if any: the first entry
/// carrying that origin (under [`origins_unique`], the only one).
pub open spec fn cat_get(s: Seq<CatalogEntryV>, name: Seq<Seq<u8>>) -> Option<ForwarderV>
    decreases s.len(),
{
    if s.len() == 0 {
        None
    } else if s[0].origin == name {
        Some(s[0].forwarder)
    } else {
        cat_get(s.drop_first(), name)
    }
}

/// Some entry carries exactly this origin.
pub open spec fn has_origin(s: Seq<CatalogEntryV>, name: Seq<Seq<u8>>) -> bool {
    exists|i: int| 0 <= i < s.len() && (#[trigger] s[i]).origin == name
}

/// The entries whose origin is not `name`, in order.
pub open spec fn keep_other_entries(s: Seq<CatalogEntryV>, name: Seq<Seq<u8>>) -> Seq<
    CatalogEntryV,
>
    decreases s.len(),
{
    if s.len() == 0 {
        Seq::empty()
    } else if s[0].origin == name {
        keep_other_entries(s.drop_first(), name)
    } else {
        seq![s[0]] + keep_other_entries(s.drop_first(), name)
    }
}

/// No two entries carry the same origin.
pub open spec fn origins_unique(s: Seq<CatalogEntryV>) -> bool {
    forall|i: int, j: int|
        0 <= i < j < s.len() ==> (#[trigger] s[i]).origin != (#[trigger] s[j]).origin
}

/// A route exists exactly when an entry carries the origin.
pub proof fn lemma_cat_get_has(s: Seq<CatalogEntryV>, name: Seq<Seq<u8>>)
    ensures
        (cat_get(s, name) is Some) == has_origin(s, name),
    decreases s.len(),
{
    if s.len() == 0 {
    } else if s[0].origin == name {
        assert(has_origin(s, name));
    } else {
        lemma_cat_get_has(s.drop_first(), name);
        if has_origin(s.drop_first(), name) {
            let i = choose|i: int|
                0 <= i < s.drop_first().len() && (#[trigger] s.drop_first()[i]).origin == name;
            assert(s[i + 1].origin == name);
        }
        if has_origin(s, name) {
            let i = choose|i: int| 0 <= i < s.len() && (#[trigger] s[i]).origin == name;
            assert(s.drop_first()[i - 1].origin == name);
        }
    }
}

/// Dropping `name` leaves every other route unchanged and `name` gone.
pub proof fn lemma_keep_other_get(s: Seq<CatalogEntryV>, name: Seq<Seq<u8>>, m: Seq<Seq<u8>>)
    ensures
        cat_get(keep_other_entries(s, name), m) == (if m == name {
            None::<ForwarderV>
        } else {
            cat_get(s, m)
        }),
    decreases s.len(),
{
    if s.len() == 0 {
    } else if s[0].origin == name {
        lemma_keep_other_get(s.drop_first(), name, m);
    } else {
        lemma_keep_other_get(s.drop_first(), name, m);
        let k = keep_other_entries(s.drop_first(), name);
        let whole = seq![s[0]] + k;
        assert(whole[0] == s[0]);
        assert(whole.drop_first() =~= k);
    }
}

/// Without a route for `name`, dropping `name` changes nothing.
pub proof fn lemma_keep_other_id(s: Seq<CatalogEntryV>, name: Seq<Seq<u8>>)
    requires
        !has_origin(s, name),
    ensures
        keep_other_entries(s, name) == s,
    decreases s.len(),
{
    if s.len() == 0 {
        assert(keep_other_entries(s, name) =~= s);
    } else {
        assert(s[0].origin != name);
        assert forall|i: int| 0 <= i < s.drop_first().len() implies (#[trigger] s.drop_first()[
            i
        ]).origin != name by {
            assert(s.drop_first()[i] == s[i + 1]);
        }
        lemma_keep_other_id(s.drop_first(), name);
        assert(seq![s[0]] + s.drop_first() =~= s);
    }
}

/// Dropping an origin keeps the entries unique and their origins a
/// subset of what was there, without the dropped one.
pub proof fn lemma_keep_other_unique(s: Seq<CatalogEntryV>, name: Seq<Seq<u8>>)
    requires
        origins_unique(s),
    ensures
        origins_unique(keep_other_entries(s, name)),
        !has_origin(keep_other_entries(s, name), name),
        forall|m: Seq<Seq<u8>>|
            #[trigger] has_origin(keep_other_entries(s, name), m) ==> has_origin(s, m),
    decreases s.len(),
{
    if s.len() == 0 {
    } else {
        let rest = s.drop_first();
        assert forall|i: int, j: int| 0 <= i < j < rest.len() implies (#[trigger] rest[i]).origin
            != (#[trigger] rest[j]).origin by {
            assert(rest[i] == s[i + 1] && rest[j] == s[j + 1]);
        }
        lemma_keep_other_unique(rest, name);
        let k = keep_other_entries(rest, name);
        if s[0].origin == name {
        } else {
            let whole = seq![s[0]] + k;
            assert forall|m: Seq<Seq<u8>>| #[trigger] has_origin(whole, m) implies (s[0].origin
                == m || has_origin(k, m)) by {
                let i = choose|i: int| 0 <= i < whole.len() && (#[trigger] whole[i]).origin == m;
                if i > 0 {
                    assert(whole[i] == k[i - 1]);
                }
            }
            assert forall|m: Seq<Seq<u8>>| #[trigger] has_origin(whole, m) implies has_origin(
                s,
                m,
            ) by {
                if s[0].origin == m {
                    assert(s[0] == s[0]);
                } else {
                    assert(has_origin(k, m));
                    let i = choose|i: int| 0 <= i < k.len() && (#[trigger] k[i]).origin == m;
                    assert(has_origin(rest, m));
                    let j = choose|j: int| 0 <= j < rest.len() && (#[trigger] rest[j]).origin == m;
                    assert(s[j + 1].origin == m);
                }
            }
            assert(!has_origin(whole, name)) by {
                if has_origin(whole, name) {
                    let i = choose|i: int|
                        0 <= i < whole.len() && (#[trigger] whole[i]).origin == name;
                    if i > 0 {
                        assert(whole[i] == k[i - 1]);
                        assert(has_origin(k, name));
                    }
                }
            }
            assert forall|i: int, j: int| 0 <= i < j < whole.len() implies (#[trigger] whole[
                i
            ]).origin != (#[trigger] whole[j]).origin by {
                if i == 0 {
                    assert(whole[j] == k[j - 1]);
                    if s[0].origin == whole[j].origin {
                        assert(has_origin(k, s[0].origin));
                        assert(has_origin(rest, s[0].origin));
                        let w = choose|w: int|
                            0 <= w < rest.len() && (#[trigger] rest[w]).origin == s[0].origin;
                        assert(s[w + 1].origin == s[0].origin);
                    }
                } else {
                    assert(whole[i] == k[i - 1] && whole[j] == k[j - 1]);
                }
            }
        }
    }
}

/// Removing the only entry carrying `name` is dropping `name`.
pub proof fn lemma_remove_is_keep_other(s: Seq<CatalogEntryV>, name: Seq<Seq<u8>>, i: int)
    requires
        0 <= i < s.len(),
        s[i].origin == name,
        forall|j: int| 0 <= j < s.len() && j != i ==> (#[trigger] s[j]).origin != name,
    ensures
        s.remove(i) == keep_other_entries(s, name),
    decreases s.len(),
{
    if i == 0 {
        assert forall|j: int| 0 <= j < s.drop_first().len() implies (#[trigger] s.drop_first()[
            j
        ]).origin != name by {
            assert(s.drop_first()[j] == s[j + 1]);
        }
        lemma_keep_other_id(s.drop_first(), name);
        assert(s.remove(0) =~= s.drop_first());
    } else {
        let rest = s.drop_first();
        assert forall|j: int| 0 <= j < rest.len() && j != i - 1 implies (#[trigger] rest[j]).origin
            != name by {
            assert(rest[j] == s[j + 1]);
        }
        assert(rest[i - 1] == s[i]);
        lemma_remove_is_keep_other(rest, name, i - 1);
        assert(s[0].origin != name);
        assert(s.remove(i) =~= seq![s[0]] + rest.remove(i - 1));
    }
}

/// No entry carrying `name` survives dropping `name`.
pub proof fn lemma_keep_other_all(s: Seq<CatalogEntryV>, name: Seq<Seq<u8>>)
    ensures
        !has_origin(keep_other_entries(s, name), name),
    decreases s.len(),
{
    if s.len() == 0 {
    } else {
        lemma_keep_other_all(s.drop_first(), name);
        if s[0].origin != name {
            let k = keep_other_entries(s.drop_first(), name);
            let whole = seq![s[0]] + k;
            if has_origin(whole, name) {
                let i = choose|i: int| 0 <= i < whole.len() && (#[trigger] whole[i]).origin == name;
                assert(i > 0);
                assert(whole[i] == k[i - 1]);
            }
        }
    }
}

/// Every entry left by dropping `name` was an entry before.
pub proof fn lemma_keep_other_values(s: Seq<CatalogEntryV>, name: Seq<Seq<u8>>, i: int)
    requires
        0 <= i < keep_other_entries(s, name).len(),
    ensures
        exists|j: int| 0 <= j < s.len() && #[trigger] s[j] == keep_other_entries(s, name)[i],
    decreases s.len(),
{
    if s.len() == 0 {
    } else if s[0].origin == name {
        lemma_keep_other_values(s.drop_first(), name, i);
        let j = choose|j: int|
            0 <= j < s.drop_first().len() && #[trigger] s.drop_first()[j] == keep_other_entries(
                s.drop_first(),
                name,
            )[i];
        assert(s[j + 1] == keep_other_entries(s, name)[i]);
    } else {
        let whole = seq![s[0]] + keep_other_entries(s.drop_first(), name);
        if i == 0 {
            assert(whole[0] == s[0]);
        } else {
            assert(whole[i] == keep_other_entries(s.drop_first(), name)[i - 1]);
            lemma_keep_other_values(s.drop_first(), name, i - 1);
            let j = choose|j: int|
                0 <= j < s.drop_first().len() && #[trigger] s.drop_first()[j]
                    == keep_other_entries(s.drop_first(), name)[i - 1];
            assert(s[j + 1] == whole[i]);
        }
    }
}

/// Appending an entry of the dropped origin changes nothing once it is
/// dropped.
pub proof fn lemma_keep_other_push_same(s: Seq<CatalogEntryV>, e: CatalogEntryV, name: Seq<Seq<u8>>)
    requires
        e.origin == name,
    ensures
        keep_other_entries(s.push(e), name) == keep_other_entries(s, name),
    decreases s.len(),
{
    if s.len() == 0 {
        assert(s.push(e)[0] == e);
        assert(s.push(e).drop_first() =~= Seq::<CatalogEntryV>::empty());
        assert(keep_other_entries(s.push(e), name) == keep_other_entries(
            s.push(e).drop_first(),
            name,
        ));
        assert(keep_other_entries(s, name) =~= Seq::<CatalogEntryV>::empty());
    } else {
        lemma_keep_other_push_same(s.drop_first(), e, name);
        assert(s.push(e)[0] == s[0]);
        assert(s.push(e).drop_first() =~= s.drop_first().push(e));
    }
}

/// Appending an entry leaves earlier routes in place; a fresh origin
/// gains its route.
pub proof fn lemma_cat_get_push(s: Seq<CatalogEntryV>, e: CatalogEntryV, m: Seq<Seq<u8>>)
    ensures
        cat_get(s.push(e), m) == (if cat_get(s, m) is Some {
            cat_get(s, m)
        } else if e.origin == m {
            Some(e.forwarder)
        } else {
            None::<ForwarderV>
        }),
    decreases s.len(),
{
    if s.len() == 0 {
        assert(s.push(e).len() == 1);
        assert(s.push(e)[0] == e);
        assert(s.push(e).drop_first() =~= Seq::<CatalogEntryV>::empty());
        assert(cat_get(s.push(e).drop_first(), m) is None);
        assert(cat_get(s, m) is None);
    } else {
        lemma_cat_get_push(s.drop_first(), e, m);
        assert(s.push(e).len() == s.len() + 1);
        assert(s.push(e)[0] == s[0]);
        assert(s.push(e).drop_first() =~= s.drop_first().push(e));
        assert(cat_get(s.push(e).drop_first(), m) == cat_get(s.drop_first().push(e), m));
        if s[0].origin == m {
            assert(cat_get(s.push(e), m) == Some(s[0].forwarder));
            assert(cat_get(s, m) == Some(s[0].forwarder));
        } else {
            assert(cat_get(s.push(e), m) == cat_get(s.drop_first().push(e), m));
            assert(cat_get(s, m) == cat_get(s.drop_first(), m));
        }
    }
}

/// The routing table. Writes go through [`RoutingCatalog::upsert`] and
/// [`RoutingCatalog::remove`]; reads through [`RoutingCatalog::lookup`].
/// Concurrent use wraps the whole value in a reader-writer lock outside
/// the library; readers then see the state before a write or after it,
/// never a torn one.
pub struct RoutingCatalog {
    entries: Vec<CatalogEntry>,
}

impl View for RoutingCatalog {
    type V = Seq<CatalogEntryV>;

    closed spec fn view(&self) -> Seq<CatalogEntryV> {
        self.entries@.map(|i: int, e: CatalogEntry| e@)
    }
}

impl RoutingCatalog {
    /// At most one entry per origin.
    pub open spec fn wf(&self) -> bool {
        origins_unique(self@)
    }

    /// An empty catalog: no zone is routable, every query fails.
    pub fn new() -> (r: RoutingCatalog)
        ensures
            r@ == Seq::<CatalogEntryV>::empty(),
            r.wf(),
    {
        let r = RoutingCatalog { entries: Vec::new() };
        proof {
            assert(r@ =~= Seq::<CatalogEntryV>::empty());
        }
        r
    }

    /// How many routes are installed.
    pub fn len(&self) -> (n: usize)
        ensures
            n == self@.len(),
    {
        self.entries.len()
    }

    /// The index of the entry carrying exactly `name`, if any.
    fn find_exact(&self, name: &DnsName) -> (r: Option<usize>)
        ensures
            match r {
                Some(i) => i < self@.len() && self@[i as int].origin == name@ && forall|j: int|
                    0 <= j < i ==> (#[trigger] self@[j]).origin != name@,
                None => !has_origin(self@, name@),
            },
    {
        let mut i: usize = 0;
        while i < self.entries.len()
            invariant
                i <= self.entries.len(),
                self.entries.len() == self@.len(),
                forall|j: int| 0 <= j < i ==> (#[trigger] self@[j]).origin != name@,
            decreases self.entries.len() - i,
        {
            if self.entries[i].origin.eq_name(name) {
                return Some(i);
            }
            i += 1;
        }
        None
    }

    /// The route installed for exactly `name`, if any.
    pub fn get_exact(&self, name: &DnsName) -> (r: Option<&Forwarder>)
        ensures
            match r {
                Some(f) => cat_get(self@, name@) == Some(f@),
                None => cat_get(self@, name@) is None,
            },
    {
        proof {
            lemma_cat_get_has(self@, name@);
        }
        match self.find_exact(name) {
            Some(i) => {
                proof {
                    lemma_cat_get_first_match(self@, name@, i as int);
                }
                Some(&self.entries[i].forwarder)
            },
            None => None,
        }
    }

    /// Install `forwarder` as the route for exactly `name`, replacing
    /// any prior route for that name and touching no other.
    pub fn upsert(&mut self, name: DnsName, forwarder: Forwarder)
        requires
            old(self).wf(),
        ensures
            final(self)@ == keep_other_entries(old(self)@, name@).push(
                CatalogEntryV { origin: name@, forwarder: forwarder@ },
            ),
            final(self).wf(),
    {
        let ghost pre = self@;
        match self.find_exact(&name) {
            Some(i) => {
                proof {
                    assert forall|j: int|
                        0 <= j < pre.len() && j != i implies (#[trigger] pre[j]).origin
                        != name@ by {}
                    lemma_remove_is_keep_other(pre, name@, i as int);
                }
                self.entries.remove(i);
                proof {
                    assert(self@ =~= pre.remove(i as int));
                }
            },
            None => {
                proof {
                    lemma_keep_other_id(pre, name@);
                }
            },
        }
        proof {
            lemma_keep_other_unique(pre, name@);
        }
        let ghost kept = self@;
        self.entries.push(CatalogEntry { origin: name, forwarder });
        proof {
            assert(self@ =~= kept.push(
                CatalogEntryV { origin: name@, forwarder: forwarder@ },
            ));
            assert forall|i: int, j: int| 0 <= i < j < self@.len() implies (#[trigger] self@[
                i
            ]).origin != (#[trigger] self@[j]).origin by {
                if j == self@.len() - 1 {
                    assert(has_origin(kept, self@[i].origin));
                }
            }
        }
    }

    /// Drop the route for exactly `name`; a no-op when absent, and no
    /// other route is touched.
    pub fn remove(&mut self, name: &DnsName)
        requires
            old(self).wf(),
        ensures
            final(self)@ == keep_other_entries(old(self)@, name@),
            final(self).wf(),
    {
        let ghost pre = self@;
        match self.find_exact(name) {
            Some(i) => {
                proof {
                    assert forall|j: int|
                        0 <= j < pre.len() && j != i implies (#[trigger] pre[j]).origin
                        != name@ by {}
                    lemma_remove_is_keep_other(pre, name@, i as int);
                }
                self.entries.remove(i);
                proof {
                    assert(self@ =~= pre.remove(i as int));
                }
            },
            None => {
                proof {
                    lemma_keep_other_id(pre, name@);
                }
            },
        }
        proof {
            lemma_keep_other_unique(pre, name@);
        }
    }

    /// The route whose origin is the longest label suffix of the query
    /// name, or nothing when no origin matches. A returned Forwarder is
    /// one the catalog holds right now.
    pub fn lookup(&self, qname: &DnsName) -> (r: Option<&Forwarder>)
        ensures
            match r {
                Some(f) => exists|i: int|
                    {
                        &&& 0 <= i < self@.len()
                        &&& suffix_of((#[trigger] self@[i]).origin, qname@)
                        &&& f@ == self@[i].forwarder
                        &&& forall|j: int|
                            0 <= j < self@.len() && suffix_of(
                                (#[trigger] self@[j]).origin,
                                qname@,
                            ) ==> self@[j].origin.len() <= self@[i].origin.len()
                    },
                None => forall|j: int|
                    0 <= j < self@.len() ==> !suffix_of((#[trigger] self@[j]).origin, qname@),
            },
    {
        let mut best: Option<usize> = None;
        let mut i: usize = 0;
        while i < self.entries.len()
            invariant
                i <= self.entries.len(),
                self.entries.len() == self@.len(),
                match best {
                    Some(b) => {
                        &&& (b as int) < i
                        &&& suffix_of(self@[b as int].origin, qname@)
                        &&& self@[b as int].origin.len() == self.entries@[b as int].origin@.len()
                        &&& forall|j: int|
                            0 <= j < i && suffix_of((#[trigger] self@[j]).origin, qname@)
                                ==> self@[j].origin.len() <= self@[b as int].origin.len()
                    },
                    None => forall|j: int|
                        0 <= j < i ==> !suffix_of((#[trigger] self@[j]).origin, qname@),
                },
            decreases self.entries.len() - i,
        {
            if self.entries[i].origin.is_suffix_of(qname) {
                best = match best {
                    None => Some(i),
                    Some(b) => {
                        if self.entries[i].origin.label_count()
                            >= self.entries[b].origin.label_count() {
                            Some(i)
                        } else {
                            Some(b)
                        }
                    },
                };
            }
            i += 1;
        }
        match best {
            Some(b) => Some(&self.entries[b].forwarder),
            None => None,
        }
    }
}

/// What one config update does to the reconciler state: an update with
/// a rule installs it; one without drops the file's rule.
pub open spec fn apply_update(v: CollectionV, u: ConfigUpdateV) -> CollectionV {
    match u.config {
        Some(c) => step_set(v, u.config_filename, c),
        None => step_remove(v, u.config_filename),
    }
}

/// What the handler decides for one request.
pub enum RouteDecision<'a> {
    /// Resolve through this Forwarder's upstreams and answer from the
    /// outcome.
    Forward(&'a Forwarder),
    /// Answer immediately with this code and no records.
    Respond(ResponseCode),
}

/// The server: the routing catalog under its reconciler, serving
/// routing decisions for incoming requests.
pub struct PolyCatalog {
    resolvers: ResolverCollection,
}

impl View for PolyCatalog {
    type V = CollectionV;

    closed spec fn view(&self) -> CollectionV {
        self.resolvers@
    }
}

impl PolyCatalog {
    /// The reconciler state and catalog are well formed.
    pub open spec fn wf(&self) -> bool {
        &&& crate::resolver::files_unique(self@.configs)
        &&& origins_unique(self@.catalog)
        &&& forall|i: int|
            0 <= i < self@.configs.len() ==> (#[trigger] self@.configs[i]).config.wf()
    }

    /// A fresh server: nothing installed, nothing routable.
    pub fn new() -> (r: PolyCatalog)
        ensures
            r@.configs == Seq::<crate::resolver::FileEntryV>::empty(),
            r@.catalog == Seq::<CatalogEntryV>::empty(),
            r.wf(),
    {
        PolyCatalog { resolvers: ResolverCollection::new(RoutingCatalog::new()) }
    }

    /// Apply one config update to the catalog: an update carrying a
    /// rule installs it, one without a rule removes the file's rule.
    /// Neither ever fails; a skipped file simply produces no update.
    pub fn sync_catalog(&mut self, update: ConfigUpdate)
        requires
            old(self).wf(),
            update.wf(),
        ensures
            final(self).wf(),
            final(self)@ == apply_update(old(self)@, update@),
    {
        if update.config.is_some() {
            let r = self.resolvers.set_config(update);
            proof {
                assert(r is Ok);
            }
        } else {
            let r = self.resolvers.remove_config(update);
            proof {
                assert(r is Ok);
            }
        }
    }

    /// Read access to the routing catalog.
    pub fn catalog(&self) -> (r: &RoutingCatalog)
        ensures
            r@ == self@.catalog,
    {
        self.resolvers.catalog()
    }

    /// Decide one request: dynamic updates are not implemented, zone
    /// transfers are refused, NSEC material is never served; everything
    /// else routes by longest-suffix match, failing with SERVFAIL when
    /// no zone matches.
    pub fn handle_request<'a>(&'a self, qname: &DnsName, qtype: u16, opcode: u16) -> (r:
        RouteDecision<'a>)
        ensures
            match r {
                RouteDecision::Respond(code) => if opcode == OPCODE_UPDATE {
                    code == ResponseCode::NotImp
                } else if qtype == QTYPE_AXFR || qtype == QTYPE_IXFR {
                    code == ResponseCode::Refused
                } else if qtype == QTYPE_NSEC || qtype == QTYPE_NSEC3 {
                    code == ResponseCode::ServFail
                } else {
                    code == ResponseCode::ServFail && forall|j: int|
                        0 <= j < self@.catalog.len() ==> !suffix_of(
                            (#[trigger] self@.catalog[j]).origin,
                            qname@,
                        )
                },
                RouteDecision::Forward(f) => {
                    &&& opcode != OPCODE_UPDATE
                    &&& qtype != QTYPE_AXFR && qtype != QTYPE_IXFR
                    &&& qtype != QTYPE_NSEC && qtype != QTYPE_NSEC3
                    &&& exists|i: int|
                        {
                            &&& 0 <= i < self@.catalog.len()
                            &&& suffix_of((#[trigger] self@.catalog[i]).origin, qname@)
                            &&& f@ == self@.catalog[i].forwarder
                            &&& forall|j: int|
                                0 <= j < self@.catalog.len() && suffix_of(
                                    (#[trigger] self@.catalog[j]).origin,
                                    qname@,
                                ) ==> self@.catalog[j].origin.len()
                                    <= self@.catalog[i].origin.len()
                        }
                },
            },
    {
        if opcode == OPCODE_UPDATE {
            return RouteDecision::Respond(ResponseCode::NotImp);
        }
        if qtype == QTYPE_AXFR || qtype == QTYPE_IXFR {
            return RouteDecision::Respond(ResponseCode::Refused);
        }
        if qtype == QTYPE_NSEC || qtype == QTYPE_NSEC3 {
            return RouteDecision::Respond(ResponseCode::ServFail);
        }
        let cref = self.resolvers.catalog();
        let ghost cv = cref@;
        match cref.lookup(qname) {
            Some(f) => {
                proof {
                    let i = choose|i: int|
                        {
                            &&& 0 <= i < cv.len()
                            &&& suffix_of((#[trigger] cv[i]).origin, qname@)
                            &&& f@ == cv[i].forwarder
                            &&& forall|j: int|
                                0 <= j < cv.len() && suffix_of((#[trigger] cv[j]).origin, qname@)
                                    ==> cv[j].origin.len() <= cv[i].origin.len()
                        };
                    assert(self@.catalog[i] == cv[i]);
                    assert forall|j: int|
                        0 <= j < self@.catalog.len() && suffix_of(
                            (#[trigger] self@.catalog[j]).origin,
                            qname@,
                        ) implies self@.catalog[j].origin.len()
                        <= self@.catalog[i].origin.len() by {
                        assert(self@.catalog[j] == cv[j]);
                    }
                }
                RouteDecision::Forward(f)
            },
            None => {
                proof {
                    assert forall|j: int| 0 <= j < self@.catalog.len() implies !suffix_of(
                        (#[trigger] self@.catalog[j]).origin,
                        qname@,
                    ) by {
                        assert(self@.catalog[j] == cv[j]);
                    }
                }
                RouteDecision::Respond(ResponseCode::ServFail)
            },
        }
    }
}

/// `cat_get` returns the first entry carrying the origin.
proof fn lemma_cat_get_first_match(s: Seq<CatalogEntryV>, name: Seq<Seq<u8>>, i: int)
    requires
        0 <= i < s.len(),
        s[i].origin == name,
        forall|j: int| 0 <= j < i ==> (#[trigger] s[j]).origin != name,
    ensures
        cat_get(s, name) == Some(s[i].forwarder),
    decreases s.len(),
{
    if i == 0 {
    } else {
        assert(s[0].origin != name);
        assert(s.drop_first()[i - 1] == s[i]);
        assert forall|j: int| 0 <= j < i - 1 implies (#[trigger] s.drop_first()[j]).origin
            != name by {
            assert(s.drop_first()[j] == s[j + 1]);
        }
        lemma_cat_get_first_match(s.drop_first(), name, i - 1);
    }
}

} // verus!
