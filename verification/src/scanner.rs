//! Port states and the decisions of the scans: connect outcomes, raw-probe
//! bookkeeping and reply classification, and choosing local addresses.
use vstd::prelude::*;
use std::collections::{HashMap, HashSet};
use crate::targets::IpAddress;
use crate::packet::{TCP_ACK, TCP_FIN, TCP_PSH, TCP_RST, TCP_SYN, TCP_URG};
use crate::text::string_of;

verus! {

broadcast use vstd::std_specs::hash::group_hash_axioms;

/// The state a scan found a port in.
#[derive(PartialEq, Eq, Structural, Clone, Copy, Debug)]
pub enum PortStatus {
    Open,
    Closed,
    Filtered,
    OpenFiltered,
}

/// The scan of one host: its address, its name and the state of each port.
pub struct ScanResult {
    pub ip: IpAddress,
    pub hostname: String,
    pub ports: HashMap<u16, PortStatus>,
}

/// The name of a port state, as the reports and snapshots write it.
pub open spec fn status_text(s: PortStatus) -> Seq<char> {
    match s {
        PortStatus::Open => "Open"@,
        PortStatus::Closed => "Closed"@,
        PortStatus::Filtered => "Filtered"@,
        PortStatus::OpenFiltered => "OpenFiltered"@,
    }
}

/// Each port state is labelled by its own name, and different states get
/// different labels, so a report row and a saved snapshot always tell the
/// states apart.
pub proof fn law_status_labels_name_the_states(a: PortStatus, b: PortStatus)
    ensures
        status_text(a) == status_text(b) ==> a == b,
        status_text(PortStatus::Open) == "Open"@,
        status_text(PortStatus::Closed) == "Closed"@,
        status_text(PortStatus::Filtered) == "Filtered"@,
        status_text(PortStatus::OpenFiltered) == "OpenFiltered"@,
{
    reveal_strlit("Open");
    reveal_strlit("Closed");
    reveal_strlit("Filtered");
    reveal_strlit("OpenFiltered");
    if status_text(a) == status_text(b) && a != b {
        let x = status_text(a);
        let y = status_text(b);
        assert(x.len() != y.len() || x[0] != y[0] || x[4] != y[4]);
    }
}

/// The name of a port state.
pub fn status_label(s: PortStatus) -> (r: String)
    ensures
        r@ == status_text(s),
{
    match s {
        PortStatus::Open => string_of("Open"),
        PortStatus::Closed => string_of("Closed"),
        PortStatus::Filtered => string_of("Filtered"),
        PortStatus::OpenFiltered => string_of("OpenFiltered"),
    }
}

// ---------------------------------------------------------------------------
// Connect scan
// ---------------------------------------------------------------------------

/// How a TCP connection attempt ended.
#[derive(PartialEq, Eq, Structural, Clone, Copy, Debug)]
pub enum ConnectOutcome {
    Connected,
    Refused,
    OtherError,
    TimedOut,
}

/// The state a connection attempt shows: a connection is open, a refusal
/// is closed, any other error or a timeout is filtered.
pub open spec fn connect_status_spec(o: ConnectOutcome) -> PortStatus {
    match o {
        ConnectOutcome::Connected => PortStatus::Open,
        ConnectOutcome::Refused => PortStatus::Closed,
        _ => PortStatus::Filtered,
    }
}

/// The state a connection attempt shows.
pub fn connect_status(o: ConnectOutcome) -> (r: PortStatus)
    ensures
        r == connect_status_spec(o),
{
    match o {
        ConnectOutcome::Connected => PortStatus::Open,
        ConnectOutcome::Refused => PortStatus::Closed,
        ConnectOutcome::OtherError => PortStatus::Filtered,
        ConnectOutcome::TimedOut => PortStatus::Filtered,
    }
}

/// The map of port states after inserting `(ports[i], statuses[i])` in order.
pub open spec fn status_map(ports: Seq<u16>, statuses: Seq<PortStatus>) -> Map<u16, PortStatus>
    decreases ports.len(),
{
    if ports.len() == 0 {
        Map::empty()
    } else {
        status_map(ports.drop_last(), statuses).insert(
            ports.last(),
            statuses[ports.len() - 1],
        )
    }
}

/// The port map of a connect scan: each port with the state of its
/// attempt (a port listed twice keeps its last state).
pub fn collect_statuses(ports: &Vec<u16>, outcomes: &Vec<ConnectOutcome>) -> (r: HashMap<
    u16,
    PortStatus,
>)
    requires
        ports@.len() == outcomes@.len(),
    ensures
        r@ == status_map(ports@, outcomes@.map_values(|o: ConnectOutcome| connect_status_spec(o))),
{
    let ghost st = outcomes@.map_values(|o: ConnectOutcome| connect_status_spec(o));
    let mut r: HashMap<u16, PortStatus> = HashMap::new();
    let mut i: usize = 0;
    while i < ports.len()
        invariant
            i <= ports@.len(),
            ports@.len() == outcomes@.len(),
            st == outcomes@.map_values(|o: ConnectOutcome| connect_status_spec(o)),
            r@ == status_map(ports@.take(i as int), st),
        decreases ports@.len() - i,
    {
        assert(ports@.take(i + 1).drop_last() =~= ports@.take(i as int));
        r.insert(ports[i], connect_status(outcomes[i]));
        i = i + 1;
    }
    assert(ports@.take(i as int) =~= ports@);
    r
}

// ---------------------------------------------------------------------------
// Raw-probe scans
// ---------------------------------------------------------------------------

/// The raw scan techniques.
#[derive(PartialEq, Eq, Structural, Clone, Copy, Debug)]
pub enum RawScanKind {
    Syn,
    Fin,
    Null,
    Xmas,
}

/// The TCP flags a raw probe carries: SYN; FIN; none; FIN+PSH+URG.
pub open spec fn probe_flags_spec(k: RawScanKind) -> u8 {
    match k {
        RawScanKind::Syn => TCP_SYN,
        RawScanKind::Fin => TCP_FIN,
        RawScanKind::Null => 0,
        RawScanKind::Xmas => (TCP_FIN | TCP_PSH | TCP_URG) as u8,
    }
}

/// The TCP flags a raw probe carries.
pub fn probe_flags(k: RawScanKind) -> (r: u8)
    ensures
        r == probe_flags_spec(k),
{
    match k {
        RawScanKind::Syn => TCP_SYN,
        RawScanKind::Fin => TCP_FIN,
        RawScanKind::Null => 0,
        RawScanKind::Xmas => TCP_FIN | TCP_PSH | TCP_URG,
    }
}

/// The state of a probed port before any reply: filtered for SYN probes,
/// open-or-filtered for FIN, NULL and XMAS probes.
pub open spec fn unanswered_status(k: RawScanKind) -> PortStatus {
    match k {
        RawScanKind::Syn => PortStatus::Filtered,
        _ => PortStatus::OpenFiltered,
    }
}

/// The state a reply with these flags shows: for SYN probes SYN+ACK is
/// open and RST closed; for the others RST is closed; anything else
/// leaves the state as it was.
pub open spec fn reply_status(k: RawScanKind, flags: u8) -> Option<PortStatus> {
    if k == RawScanKind::Syn && flags & TCP_SYN != 0 && flags & TCP_ACK != 0 {
        Some(PortStatus::Open)
    } else if flags & TCP_RST != 0 {
        Some(PortStatus::Closed)
    } else {
        None
    }
}

/// What the scan loop must do after a reply.
#[derive(PartialEq, Eq, Structural, Clone, Copy, Debug)]
pub enum ReplyAction {
    /// Not from the target, or for no port in flight: nothing.
    Ignore,
    /// It answered a probe in flight: take its round-trip time, and send an
    /// RST to the port if `send_rst`.
    Answered { send_rst: bool },
}

/// The bookkeeping of one raw scan of one host: the state of every probed
/// port and the probes still awaiting a reply.
pub struct RawScan {
    kind: RawScanKind,
    port_map: HashMap<u16, PortStatus>,
    in_flight: HashSet<u16>,
}

impl RawScan {
    /// The scan technique.
    pub closed spec fn scan_kind(&self) -> RawScanKind {
        self.kind
    }

    /// The state of every probed port.
    pub closed spec fn statuses(&self) -> Map<u16, PortStatus> {
        self.port_map@
    }

    /// The ports probed and not yet answered.
    pub closed spec fn pending(&self) -> Set<u16> {
        self.in_flight@
    }

    /// Every port in flight has a state.
    pub open spec fn well_formed(&self) -> bool {
        self.pending().subset_of(self.statuses().dom())
    }

    /// A scan that has probed nothing yet.
    pub fn new(kind: RawScanKind) -> (r: RawScan)
        ensures
            r.scan_kind() == kind,
            r.statuses() == Map::<u16, PortStatus>::empty(),
            r.pending() == Set::<u16>::empty(),
            r.well_formed(),
    {
        RawScan { kind, port_map: HashMap::new(), in_flight: HashSet::new() }
    }

    /// A probe to `port` went out: the port is unanswered and in flight.
    pub fn probe_sent(&mut self, port: u16)
        requires
            old(self).well_formed(),
        ensures
            final(self).well_formed(),
            final(self).scan_kind() == old(self).scan_kind(),
            final(self).statuses() == old(self).statuses().insert(
                port,
                unanswered_status(old(self).scan_kind()),
            ),
            final(self).pending() == old(self).pending().insert(port),
    {
        let status = match self.kind {
            RawScanKind::Syn => PortStatus::Filtered,
            _ => PortStatus::OpenFiltered,
        };
        self.port_map.insert(port, status);
        self.in_flight.insert(port);
    }

    /// A TCP reply arrived with `flags` from source port `port`;
    /// `from_target` says whether it came from the scanned host. A reply for
    /// a port in flight takes it out of flight and records the state it
    /// shows; an open port is to be reset.
    pub fn reply(&mut self, from_target: bool, port: u16, flags: u8) -> (r: ReplyAction)
        requires
            old(self).well_formed(),
        ensures
            final(self).well_formed(),
            final(self).scan_kind() == old(self).scan_kind(),
            final(self).statuses().dom() == old(self).statuses().dom(),
            if from_target && old(self).pending().contains(port) {
                &&& final(self).pending() == old(self).pending().remove(port)
                &&& final(self).statuses() == match reply_status(old(self).scan_kind(), flags) {
                    Some(s) => old(self).statuses().insert(port, s),
                    None => old(self).statuses(),
                }
                &&& r == ReplyAction::Answered {
                    send_rst: reply_status(old(self).scan_kind(), flags) == Some(PortStatus::Open),
                }
            } else {
                &&& final(self).pending() == old(self).pending()
                &&& final(self).statuses() == old(self).statuses()
                &&& r == ReplyAction::Ignore
            },
    {
        if !from_target {
            return ReplyAction::Ignore;
        }
        if !self.in_flight.remove(&port) {
            return ReplyAction::Ignore;
        }
        let is_syn = match self.kind {
            RawScanKind::Syn => true,
            _ => false,
        };
        if is_syn && flags & TCP_SYN != 0 && flags & TCP_ACK != 0 {
            self.port_map.insert(port, PortStatus::Open);
            ReplyAction::Answered { send_rst: true }
        } else if flags & TCP_RST != 0 {
            self.port_map.insert(port, PortStatus::Closed);
            ReplyAction::Answered { send_rst: false }
        } else {
            ReplyAction::Answered { send_rst: false }
        }
    }

    /// Whether every probe has been answered.
    pub fn all_answered(&self) -> (r: bool)
        ensures
            r == (self.pending() == Set::<u16>::empty()),
    {
        let r = self.in_flight.is_empty();
        proof {
            if r {
                assert(self.in_flight@ =~= Set::<u16>::empty());
            } else {
                let k = choose|k: u16| self.in_flight@.contains(k);
                assert(!Set::<u16>::empty().contains(k));
            }
        }
        r
    }

    /// The state of every probed port.
    pub fn into_statuses(self) -> (r: HashMap<u16, PortStatus>)
        ensures
            r@ == self.statuses(),
    {
        self.port_map
    }
}

/// FIN, NULL and XMAS scans never find a port open: a probed port starts
/// open-or-filtered and a reply can only make it closed.
pub proof fn law_evasion_scans_never_report_open(kind: RawScanKind, flags: u8)
    requires
        kind != RawScanKind::Syn,
    ensures
        unanswered_status(kind) == PortStatus::OpenFiltered,
        reply_status(kind, flags) != Some(PortStatus::Open),
        reply_status(kind, flags) is Some ==> reply_status(kind, flags) == Some(PortStatus::Closed),
{
}

// ---------------------------------------------------------------------------
// Host discovery
// ---------------------------------------------------------------------------

/// The ICMP message type of an echo reply.
pub open spec fn echo_reply_type() -> u8 {
    0
}

/// Whether an ICMP message of this type answers a ping: an echo reply.
pub fn is_echo_reply(message_type: u8) -> (r: bool)
    ensures
        r == (message_type == echo_reply_type()),
{
    message_type == 0
}

/// A TCP reply that shows a host is up: SYN+ACK or RST.
pub open spec fn is_liveness_reply(flags: u8) -> bool {
    (flags & TCP_SYN != 0 && flags & TCP_ACK != 0) || flags & TCP_RST != 0
}

/// Whether a TCP reply shows its host is up.
pub fn liveness_reply(flags: u8) -> (r: bool)
    ensures
        r == is_liveness_reply(flags),
{
    (flags & TCP_SYN != 0 && flags & TCP_ACK != 0) || flags & TCP_RST != 0
}

/// The tally of a discovery sweep: which probed hosts answered, and how
/// many answers are still awaited.
pub struct Tally {
    hosts: Vec<IpAddress>,
    seen: Vec<bool>,
    remaining: usize,
}

/// The number of `true` entries.
pub open spec fn count_true(s: Seq<bool>) -> nat
    decreases s.len(),
{
    if s.len() == 0 {
        0
    } else {
        count_true(s.drop_last()) + if s.last() {
            1nat
        } else {
            0nat
        }
    }
}

/// The distinct entries of `s`, first occurrences in order.
pub open spec fn distinct_in_order(s: Seq<IpAddress>) -> Seq<IpAddress>
    decreases s.len(),
{
    if s.len() == 0 {
        Seq::empty()
    } else {
        let d = distinct_in_order(s.drop_last());
        if d.contains(s.last()) {
            d
        } else {
            d.push(s.last())
        }
    }
}

proof fn lemma_count_true_update(s: Seq<bool>, i: int)
    requires
        0 <= i < s.len(),
        !s[i],
    ensures
        count_true(s.update(i, true)) == count_true(s) + 1,
    decreases s.len(),
{
    if i < s.len() - 1 {
        lemma_count_true_update(s.drop_last(), i);
        assert(s.update(i, true).drop_last() =~= s.drop_last().update(i, true));
    } else {
        assert(s.update(i, true).drop_last() =~= s.drop_last());
    }
}

proof fn lemma_count_true_bound(s: Seq<bool>)
    ensures
        count_true(s) <= s.len(),
    decreases s.len(),
{
    if s.len() > 0 {
        lemma_count_true_bound(s.drop_last());
    }
}

proof fn lemma_distinct_len(s: Seq<IpAddress>)
    ensures
        distinct_in_order(s).len() <= s.len(),
    decreases s.len(),
{
    if s.len() > 0 {
        lemma_distinct_len(s.drop_last());
    }
}

impl Tally {
    /// The hosts probed, each once.
    pub closed spec fn probed(&self) -> Seq<IpAddress> {
        self.hosts@
    }

    /// Whether each probed host has answered.
    pub closed spec fn answered(&self) -> Seq<bool> {
        self.seen@
    }

    /// The number of answers still awaited.
    pub closed spec fn awaited(&self) -> nat {
        self.remaining as nat
    }

    /// The host list and the answer list line up, no host twice, and the
    /// count of awaited answers falls as answers come.
    pub closed spec fn well_formed(&self) -> bool {
        &&& self.hosts@.len() == self.seen@.len()
        &&& self.hosts@.no_duplicates()
        &&& self.remaining as nat + count_true(self.seen@) >= self.hosts@.len()
    }

    /// A sweep over `ips` with no answer yet; `awaited` starts at the number
    /// of probes sent (`ips.len()`), a host listed twice counted twice.
    pub fn new(ips: &Vec<IpAddress>) -> (r: Tally)
        ensures
            r.well_formed(),
            r.probed() == distinct_in_order(ips@),
            r.answered() == Seq::new(distinct_in_order(ips@).len(), |i: int| false),
            r.awaited() == ips@.len(),
    {
        let mut hosts: Vec<IpAddress> = Vec::new();
        let mut seen: Vec<bool> = Vec::new();
        let mut i: usize = 0;
        while i < ips.len()
            invariant
                i <= ips@.len(),
                hosts@ == distinct_in_order(ips@.take(i as int)),
                hosts@.no_duplicates(),
                seen@ == Seq::new(hosts@.len(), |k: int| false),
            decreases ips@.len() - i,
        {
            assert(ips@.take(i + 1).drop_last() =~= ips@.take(i as int));
            let ip = ips[i];
            let mut found = false;
            let mut j: usize = 0;
            while j < hosts.len()
                invariant
                    j <= hosts@.len(),
                    found == exists|k: int| 0 <= k < j && hosts@[k] == ip,
                decreases hosts@.len() - j,
            {
                if hosts[j] == ip {
                    found = true;
                }
                j = j + 1;
            }
            if !found {
                hosts.push(ip);
                seen.push(false);
                assert(seen@ =~= Seq::new(hosts@.len(), |k: int| false));
            }
            i = i + 1;
        }
        assert(ips@.take(i as int) =~= ips@);
        proof {
            lemma_distinct_len(ips@);
            assert(count_true(seen@) == 0) by {
                lemma_count_true_zero(seen@);
            }
        }
        Tally { hosts, seen, remaining: ips.len() }
    }

    /// An answer came from `addr`. A probed host not yet marked is marked
    /// answered and one fewer answer is awaited; otherwise nothing changes.
    /// Returns whether the host was newly marked.
    pub fn answer_from(&mut self, addr: IpAddress) -> (r: bool)
        requires
            old(self).well_formed(),
        ensures
            final(self).well_formed(),
            final(self).probed() == old(self).probed(),
            r == exists|i: int|
                0 <= i < old(self).probed().len() && old(self).probed()[i] == addr
                    && !old(self).answered()[i],
            r ==> final(self).awaited() == old(self).awaited() - 1 && exists|i: int|
                0 <= i < old(self).probed().len() && old(self).probed()[i] == addr
                    && final(self).answered() == old(self).answered().update(i, true),
            !r ==> final(self).awaited() == old(self).awaited() && final(self).answered()
                == old(self).answered(),
    {
        let mut i: usize = 0;
        while i < self.hosts.len()
            invariant
                self.hosts@.len() == self.seen@.len(),
                i <= self.hosts@.len(),
                *self == *old(self),
                self.well_formed(),
                forall|k: int| 0 <= k < i ==> self.hosts@[k] != addr,
            decreases self.hosts@.len() - i,
        {
            if self.hosts[i] == addr {
                if self.seen[i] {
                    proof {
                        assert forall|k: int|
                            0 <= k < self.hosts@.len() && self.hosts@[k] == addr implies self.seen@[k] by {
                            if k != i {
                                assert(self.hosts@[k] == self.hosts@[i as int]);
                            }
                        }
                    }
                    return false;
                }
                proof {
                    lemma_count_true_update(self.seen@, i as int);
                    lemma_count_true_bound(self.seen@.update(i as int, true));
                }
                self.seen.set(i, true);
                self.remaining = self.remaining - 1;
                return true;
            }
            i = i + 1;
        }
        false
    }

    /// Awaits one answer from every probed host that has not answered yet.
    pub fn await_unanswered(&mut self)
        requires
            old(self).well_formed(),
        ensures
            final(self).well_formed(),
            final(self).probed() == old(self).probed(),
            final(self).answered() == old(self).answered(),
            final(self).awaited() + count_true(final(self).answered()) == final(self).probed().len(),
    {
        let mut n: usize = 0;
        let mut i: usize = 0;
        while i < self.seen.len()
            invariant
                i <= self.seen@.len(),
                n + count_true(self.seen@.take(i as int)) == i,
            decreases self.seen@.len() - i,
        {
            assert(self.seen@.take(i + 1).drop_last() =~= self.seen@.take(i as int));
            if !self.seen[i] {
                n = n + 1;
            }
            i = i + 1;
        }
        assert(self.seen@.take(i as int) =~= self.seen@);
        self.remaining = n;
    }

    /// Whether no answer is awaited any more.
    pub fn done(&self) -> (r: bool)
        ensures
            r == (self.awaited() == 0),
    {
        self.remaining == 0
    }

    /// The number of answers still awaited.
    pub fn awaited_count(&self) -> (r: usize)
        ensures
            r == self.awaited(),
    {
        self.remaining
    }

    /// Whether `addr` is a probed host that answered.
    pub fn is_up(&self, addr: IpAddress) -> (r: bool)
        requires
            self.well_formed(),
        ensures
            r == exists|i: int|
                0 <= i < self.probed().len() && self.probed()[i] == addr && self.answered()[i],
    {
        let mut i: usize = 0;
        while i < self.hosts.len()
            invariant
                self.hosts@.len() == self.seen@.len(),
                self.hosts@.no_duplicates(),
                i <= self.hosts@.len(),
                forall|k: int| 0 <= k < i ==> self.hosts@[k] != addr,
            decreases self.hosts@.len() - i,
        {
            if self.hosts[i] == addr {
                proof {
                    assert forall|k: int|
                        0 <= k < self.hosts@.len() && self.hosts@[k] == addr implies k == i by {
                    }
                }
                return self.seen[i];
            }
            i = i + 1;
        }
        false
    }
}

proof fn lemma_count_true_zero(s: Seq<bool>)
    requires
        forall|i: int| 0 <= i < s.len() ==> !s[i],
    ensures
        count_true(s) == 0,
    decreases s.len(),
{
    if s.len() > 0 {
        lemma_count_true_zero(s.drop_last());
    }
}

/// The addresses of one family, in order.
pub open spec fn of_family(ips: Seq<IpAddress>, v4: bool) -> Seq<IpAddress>
    decreases ips.len(),
{
    if ips.len() == 0 {
        Seq::empty()
    } else {
        let d = of_family(ips.drop_last(), v4);
        if (ips.last() is V4) == v4 {
            d.push(ips.last())
        } else {
            d
        }
    }
}

/// Splits addresses into the IPv4 ones and the IPv6 ones, each in order.
pub fn partition_by_family(ips: &Vec<IpAddress>) -> (r: (Vec<IpAddress>, Vec<IpAddress>))
    ensures
        r.0@ == of_family(ips@, true),
        r.1@ == of_family(ips@, false),
{
    let mut v4: Vec<IpAddress> = Vec::new();
    let mut v6: Vec<IpAddress> = Vec::new();
    let mut i: usize = 0;
    while i < ips.len()
        invariant
            i <= ips@.len(),
            v4@ == of_family(ips@.take(i as int), true),
            v6@ == of_family(ips@.take(i as int), false),
        decreases ips@.len() - i,
    {
        assert(ips@.take(i + 1).drop_last() =~= ips@.take(i as int));
        let ip = ips[i];
        match ip {
            IpAddress::V4(_) => v4.push(ip),
            IpAddress::V6(_) => v6.push(ip),
        }
        i = i + 1;
    }
    assert(ips@.take(i as int) =~= ips@);
    (v4, v6)
}

// ---------------------------------------------------------------------------
// Local addresses
// ---------------------------------------------------------------------------

/// A network interface as the scanner sees it.
pub struct InterfaceInfo {
    pub is_loopback: bool,
    pub is_up: bool,
    pub ips: Vec<IpAddress>,
}

/// The addresses of the interfaces that are up and not loopback, in order.
pub open spec fn usable_addresses(ifaces: Seq<InterfaceInfo>) -> Seq<IpAddress>
    decreases ifaces.len(),
{
    if ifaces.len() == 0 {
        Seq::empty()
    } else {
        let d = usable_addresses(ifaces.drop_last());
        let f = ifaces.last();
        if f.is_loopback || !f.is_up {
            d
        } else {
            d + f.ips@
        }
    }
}

/// The first IPv4 address of `s`.
pub open spec fn first_v4(s: Seq<IpAddress>) -> Option<u32>
    decreases s.len(),
{
    if s.len() == 0 {
        None
    } else {
        match first_v4(s.drop_last()) {
            Some(a) => Some(a),
            None => match s.last() {
                IpAddress::V4(a) => Some(a),
                _ => None,
            },
        }
    }
}

/// The first IPv6 address of `s` that is not the loopback address `::1`.
pub open spec fn first_v6(s: Seq<IpAddress>) -> Option<u128>
    decreases s.len(),
{
    if s.len() == 0 {
        None
    } else {
        match first_v6(s.drop_last()) {
            Some(a) => Some(a),
            None => match s.last() {
                IpAddress::V6(a) => if a != 1 {
                    Some(a)
                } else {
                    None
                },
                _ => None,
            },
        }
    }
}

/// The local addresses probes are sent from: the first IPv4 address and the
/// first non-loopback IPv6 address of the interfaces that are up and not
/// loopback.
pub fn select_local_ips(ifaces: &Vec<InterfaceInfo>) -> (r: (Option<u32>, Option<u128>))
    ensures
        r.0 == first_v4(usable_addresses(ifaces@)),
        r.1 == first_v6(usable_addresses(ifaces@)),
{
    let mut v4: Option<u32> = None;
    let mut v6: Option<u128> = None;
    let ghost mut seen: Seq<IpAddress> = Seq::empty();
    let mut k: usize = 0;
    while k < ifaces.len()
        invariant
            k <= ifaces@.len(),
            seen == usable_addresses(ifaces@.take(k as int)),
            v4 == first_v4(seen),
            v6 == first_v6(seen),
        decreases ifaces@.len() - k,
    {
        assert(ifaces@.take(k + 1).drop_last() =~= ifaces@.take(k as int));
        let iface = &ifaces[k];
        if !(iface.is_loopback || !iface.is_up) {
            let ghost base = seen;
            let mut j: usize = 0;
            while j < iface.ips.len()
                invariant
                    j <= iface.ips@.len(),
                    seen == base + iface.ips@.take(j as int),
                    v4 == first_v4(seen),
                    v6 == first_v6(seen),
                decreases iface.ips@.len() - j,
            {
                let ip = iface.ips[j];
                proof {
                    assert((base + iface.ips@.take(j + 1)).drop_last() =~= base + iface.ips@.take(
                        j as int,
                    ));
                    seen = base + iface.ips@.take(j + 1);
                }
                match ip {
                    IpAddress::V4(a) => {
                        if v4.is_none() {
                            v4 = Some(a);
                        }
                    },
                    IpAddress::V6(a) => {
                        if a != 1 && v6.is_none() {
                            v6 = Some(a);
                        }
                    },
                }
                j = j + 1;
            }
            assert(iface.ips@.take(j as int) =~= iface.ips@);
        }
        k = k + 1;
    }
    assert(ifaces@.take(k as int) =~= ifaces@);
    (v4, v6)
}

} // verus!
