//! One zone-routing rule, as read from one file of the config directory.

use vstd::prelude::*;

use crate::dns_name::{name_ok, DnsName};
use crate::ip_addr::IpAddress;

verus! {

/// Transport used toward a zone's upstream nameservers.
#[derive(Clone, Copy, PartialEq, Eq, Structural, Debug)]
pub enum Protocol {
    Udp,
    Tcp,
    Tls,
}

/// Why a zone file was rejected; the file is skipped and logged, never fatal.
#[derive(Clone, Copy, PartialEq, Eq, Structural, Debug)]
pub enum ParseError {
    /// A line is neither a key, a list item, a comment nor blank, or a
    /// list item stands outside the `forwarders` list.
    MalformedDocument,
    /// A key other than the three recognized ones.
    UnknownField,
    /// A recognized key appears twice.
    DuplicateField,
    MissingDomainName,
    MissingForwarders,
    MissingProtocol,
    /// `domain_name` does not parse as a DNS name.
    InvalidDomainName,
    /// A forwarder entry does not parse as an IP address.
    InvalidForwarder,
    /// The `forwarders` list is present but empty.
    EmptyForwarders,
    /// `protocol` is none of `udp`, `tcp`, `tls`.
    UnknownProtocol,
}

/// Ghost image of a [`Config`].
pub ghost struct ConfigV {
    pub domain_name: Seq<Seq<u8>>,
    pub forwarders: Seq<IpAddress>,
    pub protocol: Protocol,
}

impl ConfigV {
    /// The rule is valid: a canonical zone name and at least one upstream.
    pub open spec fn wf(self) -> bool {
        &&& name_ok(self.domain_name)
        &&& self.forwarders.len() > 0
    }
}

/// One parsed and validated zone-routing rule.
pub struct Config {
    /// The zone this rule governs; queries at or below it match.
    pub domain_name: DnsName,
    /// Upstream nameservers for the zone, in rotation order; never empty.
    pub forwarders: Vec<IpAddress>,
    /// Transport toward the upstreams.
    pub protocol: Protocol,
}

impl View for Config {
    type V = ConfigV;

    open spec fn view(&self) -> ConfigV {
        ConfigV {
            domain_name: self.domain_name@,
            forwarders: self.forwarders@,
            protocol: self.protocol,
        }
    }
}

impl Config {
    /// The rule is valid: a canonical zone name and at least one upstream.
    pub open spec fn wf(&self) -> bool {
        self@.wf()
    }

    /// Structural copy of the rule.
    pub fn duplicate(&self) -> (r: Config)
        ensures
            r@ == self@,
    {
        let mut fwd: Vec<IpAddress> = Vec::new();
        let mut i: usize = 0;
        while i < self.forwarders.len()
            invariant
                i <= self.forwarders.len(),
                fwd@ =~= self.forwarders@.take(i as int),
            decreases self.forwarders.len() - i,
        {
            fwd.push(self.forwarders[i]);
            i += 1;
        }
        proof {
            assert(fwd@ =~= self.forwarders@);
        }
        Config {
            domain_name: self.domain_name.duplicate(),
            forwarders: fwd,
            protocol: self.protocol,
        }
    }
}

/// Ghost image of a [`ConfigUpdate`].
pub ghost struct ConfigUpdateV {
    pub config_filename: Seq<u8>,
    pub config: Option<ConfigV>,
}

/// One reconciliation event: a file now holds `config`, or — when
/// `config` is `None` — the file is gone and its rule must leave.
pub struct ConfigUpdate {
    /// The originating file name; the reconciler's stable identity.
    pub config_filename: Vec<u8>,
    pub config: Option<Config>,
}

impl View for ConfigUpdate {
    type V = ConfigUpdateV;

    open spec fn view(&self) -> ConfigUpdateV {
        ConfigUpdateV {
            config_filename: self.config_filename@,
            config: match self.config {
                Some(c) => Some(c@),
                None => None,
            },
        }
    }
}

impl ConfigUpdate {
    /// The update's payload, if any, is a valid rule.
    pub open spec fn wf(&self) -> bool {
        match self@.config {
            Some(c) => c.wf(),
            None => true,
        }
    }
}

/// A filesystem event kind, as the directory watcher reports it.
#[derive(Clone, Copy, PartialEq, Eq, Structural, Debug)]
pub enum FsEventKind {
    /// A file was written.
    Write,
    /// A file was created.
    Create,
    /// A file was removed.
    Remove,
    /// Anything else; ignored.
    Other,
}

/// The zone-config directory watcher's decisions: which events call
/// for reading a file, and what update each event turns into. The
/// enumeration of the directory, the notification subscription and the
/// channels around it run outside the library and feed this logic.
#[derive(Debug)]
pub struct ConfigWatcher(pub Vec<u8>);

impl ConfigWatcher {
    /// A watcher for the config directory at `path`.
    pub fn new(path: Vec<u8>) -> (r: ConfigWatcher)
        ensures
            r.0@ == path@,
    {
        ConfigWatcher(path)
    }

    /// The directory being watched.
    pub fn dir(&self) -> (r: &Vec<u8>)
        ensures
            r@ == self.0@,
    {
        &self.0
    }

    /// An event calls for loading the file exactly when a regular file
    /// was written or created.
    pub fn wants_load(&self, kind: FsEventKind, is_dir: bool) -> (r: bool)
        ensures
            r == ((kind == FsEventKind::Write || kind == FsEventKind::Create) && !is_dir),
    {
        (matches!(kind, FsEventKind::Write) || matches!(kind, FsEventKind::Create)) && !is_dir
    }

    /// An event calls for a removal exactly when a file was removed.
    pub fn wants_remove(&self, kind: FsEventKind) -> (r: bool)
        ensures
            r == (kind == FsEventKind::Remove),
    {
        matches!(kind, FsEventKind::Remove)
    }

    /// The update for a file that appeared or changed: its parsed rule,
    /// or nothing when the file does not parse — such a file is logged
    /// and skipped, never fatal.
    pub fn update_for_write(&self, path: Vec<u8>, text: &[u8]) -> (r: Option<ConfigUpdate>)
        ensures
            match r {
                Some(u) => {
                    &&& crate::config_text::parse_config(text@) is Ok
                    &&& u@.config == Some(crate::config_text::parse_config(text@)->Ok_0)
                    &&& u@.config_filename == path@
                    &&& u.wf()
                },
                None => crate::config_text::parse_config(text@) is Err,
            },
    {
        match Config::new(text) {
            Ok(c) => Some(ConfigUpdate { config_filename: path, config: Some(c) }),
            Err(_) => None,
        }
    }

    /// The update for a file that disappeared: a removal of its rule.
    pub fn update_for_remove(&self, path: Vec<u8>) -> (r: ConfigUpdate)
        ensures
            r@.config is None,
            r@.config_filename == path@,
            r.wf(),
    {
        ConfigUpdate { config_filename: path, config: None }
    }
}

} // verus!
