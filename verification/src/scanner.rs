//! The scan engine's verified core: classifying a probe's outcome into a
//! scan record, and the bookkeeping of a bounded-concurrency scan.
//!
//! The engine hands out the host-major, port-minor cross product of the
//! targets one at a time, never keeps more than `max_concurrency` probes in
//! flight, hands out nothing after cancellation, and counts every completed
//! probe toward the progress total. The caller performs the network probes
//! and reports each outcome back.

use vstd::prelude::*;

use crate::ip::IpAddress;
use crate::services::{spec_lookup, ServiceCatalog, ServiceEntryV};
use crate::text::{copy_range, lemma_trim_end_idx, trim_end_idx, trim_end_pos};

verus! {

/// Longest comment a scan record displays before it is cut.
pub const MAX_COMMENT_LEN: usize = 60;

/// One open port found by the scan.
pub struct ScanPair {
    pub ip: IpAddress,
    pub port: u16,
    pub service_name: Vec<u8>,
    pub comment: Vec<u8>,
}

/// Ghost image of a `ScanPair`.
#[verifier::ext_equal]
pub struct ScanPairV {
    pub ip: IpAddress,
    pub port: u16,
    pub service_name: Seq<u8>,
    pub comment: Seq<u8>,
}

impl View for ScanPair {
    type V = ScanPairV;

    open spec fn view(&self) -> ScanPairV {
        ScanPairV {
            ip: self.ip,
            port: self.port,
            service_name: self.service_name@,
            comment: self.comment@,
        }
    }
}

/// The UTF-8 bytes of the horizontal-ellipsis mark.
pub open spec fn ellipsis() -> Seq<u8> {
    seq![226u8, 128u8, 166u8]
}

/// The bytes of `unknown`, the service name for a port the catalog lacks.
pub open spec fn unknown_label() -> Seq<u8> {
    seq![117u8, 110u8, 107u8, 110u8, 111u8, 119u8, 110u8]
}

/// A comment cut for display: at most `MAX_COMMENT_LEN` bytes; a longer one
/// is cut there, trailing whitespace dropped, and an ellipsis mark appended.
pub open spec fn spec_truncate(c: Seq<u8>) -> Seq<u8> {
    if c.len() <= MAX_COMMENT_LEN {
        c
    } else {
        c.subrange(0, trim_end_idx(c, MAX_COMMENT_LEN as int)) + ellipsis()
    }
}

/// What one probe outcome contributes: nothing unless the connect succeeded
/// before cancellation; an annotated record when it did.
pub open spec fn spec_classify(
    ip: IpAddress,
    port: u16,
    cancelled: bool,
    connected: bool,
    cat: Seq<(u16, ServiceEntryV)>,
) -> Option<ScanPairV> {
    if cancelled || !connected {
        None
    } else {
        match spec_lookup(cat, port) {
            Some(e) => Some(
                ScanPairV { ip, port, service_name: e.name, comment: spec_truncate(e.comment) },
            ),
            None => Some(
                ScanPairV { ip, port, service_name: unknown_label(), comment: Seq::empty() },
            ),
        }
    }
}

/// Cuts a comment for display; exact exec counterpart of `spec_truncate`.
pub fn truncate_comment(raw: &[u8]) -> (r: Vec<u8>)
    ensures
        r@ == spec_truncate(raw@),
{
    if raw.len() <= MAX_COMMENT_LEN {
        let r = copy_range(raw, 0, raw.len());
        proof {
            assert(r@ =~= raw@);
        }
        r
    } else {
        let e = trim_end_pos(raw, MAX_COMMENT_LEN);
        proof {
            lemma_trim_end_idx(raw@, MAX_COMMENT_LEN as int);
        }
        let mut out = copy_range(raw, 0, e);
        out.push(226);
        out.push(128);
        out.push(166);
        proof {
            assert(out@ =~= spec_truncate(raw@));
        }
        out
    }
}

/// The service name reported for a port the catalog does not know.
fn unknown_name() -> (r: Vec<u8>)
    ensures
        r@ == unknown_label(),
{
    let mut v: Vec<u8> = Vec::new();
    v.push(117);
    v.push(110);
    v.push(107);
    v.push(110);
    v.push(111);
    v.push(119);
    v.push(110);
    proof {
        assert(v@ =~= unknown_label());
    }
    v
}

/// Turns one probe's outcome into its scan record, if any: a probe that was
/// cancelled or did not connect contributes nothing; a connected probe is
/// annotated from the catalog, with `unknown` and an empty comment for a
/// port the catalog lacks.
pub fn classify_probe(
    ip: IpAddress,
    port: u16,
    cancelled: bool,
    connected: bool,
    catalog: &ServiceCatalog,
) -> (r: Option<ScanPair>)
    ensures
        match r {
            Some(p) => spec_classify(ip, port, cancelled, connected, catalog@) == Some(p@),
            None => spec_classify(ip, port, cancelled, connected, catalog@) is None,
        },
{
    if cancelled || !connected {
        return None;
    }
    match catalog.lookup(port) {
        Some(e) => {
            let name = copy_range(e.name.as_slice(), 0, e.name.len());
            let comment = truncate_comment(e.comment.as_slice());
            Some(ScanPair { ip, port, service_name: name, comment })
        },
        None => Some(
            ScanPair { ip, port, service_name: unknown_name(), comment: Vec::new() },
        ),
    }
}

/// The host-major, port-minor cross product of hosts and ports: the order in
/// which the scan issues its targets.
pub open spec fn spec_targets(hosts: Seq<IpAddress>, ports: Seq<u16>) -> Seq<(IpAddress, u16)> {
    Seq::new(
        hosts.len() * ports.len(),
        |i: int| (hosts[i / ports.len() as int], ports[i % ports.len() as int]),
    )
}

/// An index below `h * p` splits into a quotient below `h` and a remainder
/// below `p`.
proof fn lemma_div_bound(i: int, h: int, p: int)
    requires
        0 <= i < h * p,
        0 < p,
    ensures
        0 <= i / p < h,
        0 <= i % p < p,
{
    vstd::arithmetic::div_mod::lemma_fundamental_div_mod(i, p);
    vstd::arithmetic::div_mod::lemma_mod_bound(i, p);
    vstd::arithmetic::div_mod::lemma_div_pos_is_pos(i, p);
    if i / p >= h {
        vstd::arithmetic::mul::lemma_mul_inequality(h, i / p, p);
        vstd::arithmetic::mul::lemma_mul_is_commutative(i / p, p);
        assert(i >= h * p);
    }
}

/// With duplicate-free host and port lists the cross product never repeats a
/// (host, port) pair.
pub proof fn lemma_targets_no_duplicates(hosts: Seq<IpAddress>, ports: Seq<u16>)
    requires
        hosts.no_duplicates(),
        ports.no_duplicates(),
    ensures
        spec_targets(hosts, ports).no_duplicates(),
{
    let t = spec_targets(hosts, ports);
    let p = ports.len() as int;
    assert forall|i: int, j: int| 0 <= i < t.len() && 0 <= j < t.len() && i != j implies t[i]
        != t[j] by {
        assert(p > 0) by {
            if ports.len() == 0 {
                vstd::arithmetic::mul::lemma_mul_basics(hosts.len() as int);
                assert(hosts.len() * ports.len() == 0);
            }
        }
        lemma_div_bound(i, hosts.len() as int, p);
        lemma_div_bound(j, hosts.len() as int, p);
        if i / p == j / p && i % p == j % p {
            vstd::arithmetic::div_mod::lemma_fundamental_div_mod(i, p);
            vstd::arithmetic::div_mod::lemma_fundamental_div_mod(j, p);
            assert(i == j);
        } else if i / p != j / p {
            assert(hosts[i / p] != hosts[j / p]);
        } else {
            assert(ports[i % p] != ports[j % p]);
        }
    }
}

/// The bookkeeping of one scan: which target goes out next, how many probes
/// are in flight, what came back. The caller does the networking; the engine
/// decides and records.
pub struct ScanEngine {
    pub hosts: Vec<IpAddress>,
    pub ports: Vec<u16>,
    pub issued: usize,
    pub in_flight: usize,
    pub completed: usize,
    pub max_concurrency: usize,
    pub cancelled: bool,
    pub results: Vec<ScanPair>,
}

impl ScanEngine {
    /// How many probes the whole scan comprises.
    pub open spec fn total(&self) -> int {
        (self.hosts@.len() * self.ports@.len()) as int
    }

    /// Every target of the scan, in issue order.
    pub open spec fn targets(&self) -> Seq<(IpAddress, u16)> {
        spec_targets(self.hosts@, self.ports@)
    }

    /// The targets handed out so far.
    pub open spec fn issued_targets(&self) -> Seq<(IpAddress, u16)> {
        self.targets().take(self.issued as int)
    }

    /// The engine's invariant: never more probes issued than targets, never
    /// more in flight than the cap, every issued probe either in flight or
    /// completed, and never more results than completed probes.
    pub open spec fn wf(&self) -> bool {
        &&& self.issued <= self.total()
        &&& self.in_flight <= self.max_concurrency
        &&& self.completed + self.in_flight == self.issued
        &&& self.results@.len() <= self.completed
        &&& self.total() <= usize::MAX
    }

    /// A fresh scan over the given hosts and ports: nothing issued, nothing
    /// in flight, nothing found, not cancelled.
    pub fn new(hosts: Vec<IpAddress>, ports: Vec<u16>, max_concurrency: usize) -> (r: ScanEngine)
        requires
            hosts@.len() * ports@.len() <= usize::MAX,
        ensures
            r.wf(),
            r.hosts == hosts,
            r.ports == ports,
            r.max_concurrency == max_concurrency,
            !r.cancelled,
            r.issued == 0,
            r.in_flight == 0,
            r.completed == 0,
            r.results@.len() == 0,
    {
        ScanEngine {
            hosts,
            ports,
            issued: 0,
            in_flight: 0,
            completed: 0,
            max_concurrency,
            cancelled: false,
            results: Vec::new(),
        }
    }

    /// Signals cancellation: idempotent, never reset, and from here on no
    /// new target is handed out.
    pub fn cancel(&mut self)
        requires
            old(self).wf(),
        ensures
            final(self).wf(),
            final(self).cancelled,
            final(self).hosts == old(self).hosts,
            final(self).ports == old(self).ports,
            final(self).issued == old(self).issued,
            final(self).in_flight == old(self).in_flight,
            final(self).completed == old(self).completed,
            final(self).max_concurrency == old(self).max_concurrency,
            final(self).results == old(self).results,
    {
        self.cancelled = true;
    }

    /// Hands out the next target, in host-major, port-minor order — or
    /// nothing, exactly when the scan is cancelled, exhausted, or already
    /// has `max_concurrency` probes in flight.
    pub fn next_target(&mut self) -> (r: Option<(IpAddress, u16)>)
        requires
            old(self).wf(),
        ensures
            final(self).wf(),
            final(self).hosts == old(self).hosts,
            final(self).ports == old(self).ports,
            final(self).max_concurrency == old(self).max_concurrency,
            final(self).cancelled == old(self).cancelled,
            final(self).completed == old(self).completed,
            final(self).results == old(self).results,
            match r {
                Some(t) => {
                    &&& !old(self).cancelled
                    &&& old(self).issued < old(self).total()
                    &&& old(self).in_flight < old(self).max_concurrency
                    &&& t == old(self).targets()[old(self).issued as int]
                    &&& final(self).issued == old(self).issued + 1
                    &&& final(self).in_flight == old(self).in_flight + 1
                },
                None => {
                    &&& *final(self) == *old(self)
                    &&& {
                        ||| old(self).cancelled
                        ||| old(self).issued == old(self).total()
                        ||| old(self).in_flight == old(self).max_concurrency
                    }
                },
            },
    {
        if self.cancelled {
            return None;
        }
        if self.in_flight >= self.max_concurrency {
            return None;
        }
        let total = self.hosts.len() * self.ports.len();
        if self.issued >= total {
            return None;
        }
        let pl = self.ports.len();
        proof {
            if pl == 0 {
                assert(self.total() == 0);
            }
            lemma_div_bound(self.issued as int, self.hosts@.len() as int, pl as int);
        }
        let hi = self.issued / pl;
        let pi = self.issued % pl;
        let ip = self.hosts[hi];
        let port = self.ports[pi];
        self.issued = self.issued + 1;
        self.in_flight = self.in_flight + 1;
        Some((ip, port))
    }

    /// Records one completed probe: one fewer in flight, one more completed
    /// (the progress count), and the outcome's record, if any, appended to
    /// the results in completion order.
    pub fn complete_probe(&mut self, found: Option<ScanPair>)
        requires
            old(self).wf(),
            old(self).in_flight > 0,
        ensures
            final(self).wf(),
            final(self).hosts == old(self).hosts,
            final(self).ports == old(self).ports,
            final(self).max_concurrency == old(self).max_concurrency,
            final(self).cancelled == old(self).cancelled,
            final(self).issued == old(self).issued,
            final(self).in_flight == old(self).in_flight - 1,
            final(self).completed == old(self).completed + 1,
            final(self).results@ == (match found {
                Some(p) => old(self).results@.push(p),
                None => old(self).results@,
            }),
    {
        self.in_flight = self.in_flight - 1;
        self.completed = self.completed + 1;
        match found {
            Some(p) => self.results.push(p),
            None => {},
        }
    }

    /// How many probes have completed (the progress counter).
    pub fn progress(&self) -> (r: usize)
        ensures
            r == self.completed,
    {
        self.completed
    }

    /// Whether every issued probe has completed and every target was issued.
    pub fn is_done(&self) -> (r: bool)
        requires
            self.wf(),
        ensures
            r == (self.issued == self.total() && self.in_flight == 0),
    {
        let total = self.hosts.len() * self.ports.len();
        self.issued == total && self.in_flight == 0
    }

    /// Whether cancellation has been signaled.
    pub fn is_cancelled(&self) -> (r: bool)
        ensures
            r == self.cancelled,
    {
        self.cancelled
    }

    /// Gives up the records found, in completion order.
    pub fn into_results(self) -> (r: Vec<ScanPair>)
        ensures
            r == self.results,
    {
        self.results
    }
}

/// No (host, port) pair is probed twice in one scan: with duplicate-free
/// host and port lists, the targets handed out so far never repeat.
pub proof fn lemma_no_repeated_probes(e: ScanEngine)
    requires
        e.wf(),
        e.hosts@.no_duplicates(),
        e.ports@.no_duplicates(),
    ensures
        e.issued_targets().no_duplicates(),
{
    lemma_targets_no_duplicates(e.hosts@, e.ports@);
    let t = e.targets();
    let it = e.issued_targets();
    assert forall|i: int, j: int| 0 <= i < it.len() && 0 <= j < it.len() && i != j implies it[i]
        != it[j] by {
        assert(it[i] == t[i] && it[j] == t[j]);
    }
}

/// A scan cancelled before any probe was issued holds no results, and its
/// target list so far is empty (and by `next_target`'s contract it stays
/// so).
pub proof fn lemma_cancelled_before_start(e: ScanEngine)
    requires
        e.wf(),
        e.cancelled,
        e.issued == 0,
    ensures
        e.results@.len() == 0,
        e.issued_targets() =~= Seq::<(IpAddress, u16)>::empty(),
{
}

/// In every well-formed engine state, at most `max_concurrency` probes are
/// in flight.
pub proof fn lemma_concurrency_bounded(e: ScanEngine)
    requires
        e.wf(),
    ensures
        e.in_flight <= e.max_concurrency,
{
}

/// A scan never accumulates more records than it has (host, port) pairs.
pub proof fn lemma_results_bounded(e: ScanEngine)
    requires
        e.wf(),
    ensures
        e.results@.len() <= e.hosts@.len() * e.ports@.len(),
{
}

} // verus!
