//! Scan snapshots and the difference between two of them.
use vstd::prelude::*;
use std::collections::HashMap;
use crate::text::string_of;

verus! {

broadcast use vstd::std_specs::hash::group_hash_axioms;

/// The result of one scan run, as saved for later comparison.
pub struct ScanSnapshot {
    pub target: String,
    pub timestamp: u64,
    pub hosts: Vec<HostSnapshot>,
}

/// One scanned host: its address text, its name, and the state text of each port.
pub struct HostSnapshot {
    pub ip: String,
    pub hostname: String,
    pub ports: HashMap<u16, String>,
}

/// A port whose state text differs between two snapshots.
pub struct PortChange {
    pub ip: String,
    pub port: u16,
    pub from: String,
    pub to: String,
}

/// What changed from one snapshot to the next.
pub struct DiffResult {
    pub new_hosts: Vec<String>,
    pub lost_hosts: Vec<String>,
    pub port_changes: Vec<PortChange>,
}

impl View for PortChange {
    type V = (Seq<char>, u16, Seq<char>, Seq<char>);

    open spec fn view(&self) -> (Seq<char>, u16, Seq<char>, Seq<char>) {
        (self.ip@, self.port, self.from@, self.to@)
    }
}

/// The current time in whole seconds since 1970-01-01 UTC (`SystemTime::now`),
/// zero if the clock reads earlier than that.
#[verifier::external_body]
fn unix_now_secs() -> u64 {
    std::time::SystemTime::now().duration_since(std::time::UNIX_EPOCH).unwrap_or_default().as_secs()
}

/// The current time in whole seconds since 1970-01-01 UTC, as a snapshot
/// records it. Nothing is stated of the value: it is the clock's reading.
pub fn now_timestamp() -> u64 {
    unix_now_secs()
}

/// The texts of a list of strings.
pub open spec fn texts(v: Seq<String>) -> Seq<Seq<char>> {
    v.map_values(|s: String| s@)
}

/// The views of a list of port changes.
pub open spec fn change_views(v: Seq<PortChange>) -> Seq<(Seq<char>, u16, Seq<char>, Seq<char>)> {
    v.map_values(|c: PortChange| c@)
}

/// Some host in `hosts` has the address text `ip`.
pub open spec fn has_ip(hosts: Seq<HostSnapshot>, ip: Seq<char>) -> bool {
    exists|i: int| 0 <= i < hosts.len() && (#[trigger] hosts[i]).ip@ == ip
}

/// The addresses of the hosts of `hosts` that `other` lacks, in order.
pub open spec fn hosts_missing_from(hosts: Seq<HostSnapshot>, other: Seq<HostSnapshot>) -> Seq<
    Seq<char>,
>
    decreases hosts.len(),
{
    if hosts.len() == 0 {
        Seq::empty()
    } else {
        let done = hosts_missing_from(hosts.drop_last(), other);
        if has_ip(other, hosts.last().ip@) {
            done
        } else {
            done.push(hosts.last().ip@)
        }
    }
}

/// The index of the last host of `hosts` with address text `ip`, or -1.
pub open spec fn last_index_with_ip(hosts: Seq<HostSnapshot>, ip: Seq<char>) -> int
    decreases hosts.len(),
{
    if hosts.len() == 0 {
        -1
    } else if hosts.last().ip@ == ip {
        hosts.len() - 1
    } else {
        last_index_with_ip(hosts.drop_last(), ip)
    }
}

/// The state text of port `p` of `h`, or `absent`.
pub open spec fn port_text(h: HostSnapshot, p: u16) -> Seq<char> {
    if h.ports@.contains_key(p) {
        h.ports@[p]@
    } else {
        "absent"@
    }
}

/// The changes of the ports below `count` between `old_h` and `new_h`,
/// in increasing port order.
pub open spec fn changes_below(
    ip: Seq<char>,
    old_h: HostSnapshot,
    new_h: HostSnapshot,
    count: nat,
) -> Seq<(Seq<char>, u16, Seq<char>, Seq<char>)>
    decreases count,
{
    if count == 0 {
        Seq::empty()
    } else {
        let p = (count - 1) as u16;
        let done = changes_below(ip, old_h, new_h, (count - 1) as nat);
        if port_text(old_h, p) != port_text(new_h, p) {
            done.push((ip, p, port_text(old_h, p), port_text(new_h, p)))
        } else {
            done
        }
    }
}

/// All port changes of one host, in increasing port order.
pub open spec fn host_changes(old_h: HostSnapshot, new_h: HostSnapshot) -> Seq<
    (Seq<char>, u16, Seq<char>, Seq<char>),
> {
    changes_below(new_h.ip@, old_h, new_h, 65536)
}

/// The port changes of the hosts of `new_hosts`, each compared with the last
/// host of `old_hosts` with the same address; hosts in `new_hosts` order.
pub open spec fn port_changes_spec(old_hosts: Seq<HostSnapshot>, new_hosts: Seq<HostSnapshot>) -> Seq<
    (Seq<char>, u16, Seq<char>, Seq<char>),
>
    decreases new_hosts.len(),
{
    if new_hosts.len() == 0 {
        Seq::empty()
    } else {
        let done = port_changes_spec(old_hosts, new_hosts.drop_last());
        let j = last_index_with_ip(old_hosts, new_hosts.last().ip@);
        if j >= 0 {
            done + host_changes(old_hosts[j], new_hosts.last())
        } else {
            done
        }
    }
}

/// `d` is the difference from `old` to `new`.
pub open spec fn is_diff(old: ScanSnapshot, new: ScanSnapshot, d: DiffResult) -> bool {
    &&& texts(d.new_hosts@) == hosts_missing_from(new.hosts@, old.hosts@)
    &&& texts(d.lost_hosts@) == hosts_missing_from(old.hosts@, new.hosts@)
    &&& change_views(d.port_changes@) == port_changes_spec(old.hosts@, new.hosts@)
}

/// Whether some host of `hosts` has the address text of `ip`.
fn contains_ip(hosts: &Vec<HostSnapshot>, ip: &String) -> (r: bool)
    ensures
        r == has_ip(hosts@, ip@),
{
    let mut i: usize = 0;
    while i < hosts.len()
        invariant
            i <= hosts@.len(),
            forall|j: int| 0 <= j < i ==> (#[trigger] hosts@[j]).ip@ != ip@,
        decreases hosts@.len() - i,
    {
        if hosts[i].ip == *ip {
            return true;
        }
        i = i + 1;
    }
    false
}

/// The addresses of the hosts of `hosts` that `other` lacks, in order.
fn missing_from(hosts: &Vec<HostSnapshot>, other: &Vec<HostSnapshot>) -> (r: Vec<String>)
    ensures
        texts(r@) == hosts_missing_from(hosts@, other@),
{
    let mut r: Vec<String> = Vec::new();
    let mut i: usize = 0;
    while i < hosts.len()
        invariant
            i <= hosts@.len(),
            texts(r@) == hosts_missing_from(hosts@.take(i as int), other@),
        decreases hosts@.len() - i,
    {
        assert(hosts@.take(i + 1).drop_last() =~= hosts@.take(i as int));
        if !contains_ip(other, &hosts[i].ip) {
            r.push(hosts[i].ip.clone());
            assert(texts(r@) =~= texts(r@.drop_last()).push(hosts@[i as int].ip@));
        }
        i = i + 1;
    }
    assert(hosts@.take(i as int) =~= hosts@);
    r
}

/// The index of the last host of `hosts` with the address text of `ip`.
fn last_with_ip(hosts: &Vec<HostSnapshot>, ip: &String) -> (r: Option<usize>)
    ensures
        match r {
            Some(j) => j < hosts@.len() && j as int == last_index_with_ip(hosts@, ip@),
            None => last_index_with_ip(hosts@, ip@) == -1,
        },
{
    let mut i: usize = hosts.len();
    assert(hosts@.take(i as int) =~= hosts@);
    while i > 0
        invariant
            i <= hosts@.len(),
            last_index_with_ip(hosts@, ip@) == last_index_with_ip(hosts@.take(i as int), ip@),
        decreases i,
    {
        assert(hosts@.take(i as int).drop_last() =~= hosts@.take(i - 1));
        if hosts[i - 1].ip == *ip {
            return Some(i - 1);
        }
        i = i - 1;
    }
    None
}

/// The state text of port `p` in `ports`, or `absent`.
fn port_state_text(ports: &HashMap<u16, String>, p: u16) -> (r: String)
    ensures
        r@ == (if ports@.contains_key(p) {
            ports@[p]@
        } else {
            "absent"@
        }),
{
    match ports.get(&p) {
        Some(s) => s.clone(),
        None => string_of("absent"),
    }
}

/// The ports of a port map, in the map's own order.
fn port_keys(m: &HashMap<u16, String>) -> (r: Vec<u16>)
    ensures
        forall|p: u16| r@.contains(p) <==> m@.contains_key(p),
{
    let ghost ks: Seq<u16> = vstd::std_specs::hash::into_iter_keys(
        vstd::std_specs::hash::spec_keys_iter(m),
    );
    proof {
        vstd::std_specs::hash::axiom_spec_keys_iter(m);
    }
    let mut r: Vec<u16> = Vec::new();
    for k in it: m.keys()
        invariant
            it.seq().unref() == ks,
            ks.to_set() == m@.dom(),
            r@ == ks.take(it.index() as int),
    {
        r.push(*k);
        assert(r@ =~= ks.take(it.index() + 1));
    }
    assert(r@ =~= ks);
    proof {
        assert forall|p: u16| r@.contains(p) <==> m@.contains_key(p) by {
            if r@.contains(p) {
                assert(ks.to_set().contains(p));
            }
            if m@.contains_key(p) {
                assert(ks.to_set().contains(p));
            }
        }
    }
    r
}

/// Every entry of `ks` is below the next.
pub open spec fn strictly_increasing(ks: Seq<u16>) -> bool {
    forall|a: int, b: int| 0 <= a < b < ks.len() ==> ks[a] < ks[b]
}

/// Inserts `x` into a strictly increasing list, keeping it so.
fn insert_sorted(v: &mut Vec<u16>, x: u16)
    requires
        strictly_increasing(old(v)@),
    ensures
        strictly_increasing(final(v)@),
        forall|y: u16| final(v)@.contains(y) <==> (old(v)@.contains(y) || y == x),
{
    let mut i: usize = 0;
    while i < v.len() && v[i] < x
        invariant
            i <= v@.len(),
            v@ == old(v)@,
            strictly_increasing(v@),
            forall|k: int| 0 <= k < i ==> v@[k] < x,
        decreases v@.len() - i,
    {
        i = i + 1;
    }
    if i < v.len() && v[i] == x {
        assert(v@[i as int] == x);
        assert(v@.contains(x));
        return;
    }
    let ghost before = v@;
    assert(before == old(v)@);
    v.insert(i, x);
    assert(v@ =~= before.take(i as int).push(x) + before.skip(i as int));
    assert forall|y: u16| v@.contains(y) <==> (before.contains(y) || y == x) by {
        if v@.contains(y) {
            let k = choose|k: int| 0 <= k < v@.len() && v@[k] == y;
            if k < i {
                assert(before[k] == y);
            } else if k > i {
                assert(before[k - 1] == y);
            }
        }
        if before.contains(y) {
            let k = choose|k: int| 0 <= k < before.len() && before[k] == y;
            if k < i {
                assert(v@[k] == y);
            } else {
                assert(v@[k + 1] == y);
            }
        }
        if y == x {
            assert(v@[i as int] == y);
        }
    }
    assert(forall|y: u16| #[trigger] v@.contains(y) <==> (old(v)@.contains(y) || y == x));
}

/// The ports of either map, in increasing order, each once.
fn union_ports(a: &HashMap<u16, String>, b: &HashMap<u16, String>) -> (r: Vec<u16>)
    ensures
        strictly_increasing(r@),
        forall|p: u16| r@.contains(p) <==> (a@.contains_key(p) || b@.contains_key(p)),
{
    let ka = port_keys(a);
    let kb = port_keys(b);
    let mut r: Vec<u16> = Vec::new();
    let mut i: usize = 0;
    while i < ka.len()
        invariant
            i <= ka@.len(),
            strictly_increasing(r@),
            forall|p: u16| r@.contains(p) <==> ka@.take(i as int).contains(p),
        decreases ka@.len() - i,
    {
        insert_sorted(&mut r, ka[i]);
        proof {
            broadcast use vstd::seq_lib::lemma_seq_contains_after_push;
            assert(ka@.take(i + 1) =~= ka@.take(i as int).push(ka@[i as int]));
        }
        i = i + 1;
    }
    assert(ka@.take(i as int) =~= ka@);
    let mut j: usize = 0;
    while j < kb.len()
        invariant
            j <= kb@.len(),
            strictly_increasing(r@),
            forall|p: u16| r@.contains(p) <==> (ka@.contains(p) || kb@.take(j as int).contains(p)),
        decreases kb@.len() - j,
    {
        insert_sorted(&mut r, kb[j]);
        proof {
            broadcast use vstd::seq_lib::lemma_seq_contains_after_push;
            assert(kb@.take(j + 1) =~= kb@.take(j as int).push(kb@[j as int]));
        }
        j = j + 1;
    }
    assert(kb@.take(j as int) =~= kb@);
    r
}

/// The changes of one host at the ports of `ks`, in the order of `ks`.
pub open spec fn changes_at(
    ip: Seq<char>,
    old_h: HostSnapshot,
    new_h: HostSnapshot,
    ks: Seq<u16>,
) -> Seq<(Seq<char>, u16, Seq<char>, Seq<char>)>
    decreases ks.len(),
{
    if ks.len() == 0 {
        Seq::empty()
    } else {
        let p = ks.last();
        let done = changes_at(ip, old_h, new_h, ks.drop_last());
        if port_text(old_h, p) != port_text(new_h, p) {
            done.push((ip, p, port_text(old_h, p), port_text(new_h, p)))
        } else {
            done
        }
    }
}

/// Ports `lo..hi` with no change add nothing.
proof fn lemma_no_change_between(ip: Seq<char>, old_h: HostSnapshot, new_h: HostSnapshot, lo: nat, hi: nat)
    requires
        lo <= hi <= 65536,
        forall|p: u16| lo <= p < hi ==> port_text(old_h, p) == port_text(new_h, p),
    ensures
        changes_below(ip, old_h, new_h, hi) == changes_below(ip, old_h, new_h, lo),
    decreases hi - lo,
{
    if hi > lo {
        let p = (hi - 1) as u16;
        assert(port_text(old_h, p) == port_text(new_h, p));
        lemma_no_change_between(ip, old_h, new_h, lo, (hi - 1) as nat);
    }
}

/// Walking an increasing list of ports that holds every changed port below
/// `c` finds the same changes as walking every port below `c`.
proof fn lemma_changes_at_sorted(ip: Seq<char>, old_h: HostSnapshot, new_h: HostSnapshot, ks: Seq<u16>, c: nat)
    requires
        c <= 65536,
        strictly_increasing(ks),
        forall|k: int| 0 <= k < ks.len() ==> ks[k] < c,
        forall|p: u16| p < c && port_text(old_h, p) != port_text(new_h, p) ==> ks.contains(p),
    ensures
        changes_at(ip, old_h, new_h, ks) == changes_below(ip, old_h, new_h, c),
    decreases ks.len(),
{
    if ks.len() == 0 {
        assert forall|p: u16| 0 <= p < c implies port_text(old_h, p) == port_text(new_h, p) by {
            if port_text(old_h, p) != port_text(new_h, p) {
                assert(ks.contains(p));
            }
        }
        lemma_no_change_between(ip, old_h, new_h, 0, c);
    } else {
        let m = ks.last();
        let rest = ks.drop_last();
        assert forall|k: int| 0 <= k < rest.len() implies rest[k] < m by {
            assert(ks[k] < ks[ks.len() - 1]);
        }
        assert forall|p: u16| p < m && port_text(old_h, p) != port_text(new_h, p) implies rest.contains(p) by {
            let k = choose|k: int| 0 <= k < ks.len() && ks[k] == p;
            if k == ks.len() - 1 {
                assert(false);
            }
            assert(rest[k] == p);
        }
        lemma_changes_at_sorted(ip, old_h, new_h, rest, m as nat);
        assert forall|p: u16| m + 1 <= p < c implies port_text(old_h, p) == port_text(new_h, p) by {
            if port_text(old_h, p) != port_text(new_h, p) {
                let k = choose|k: int| 0 <= k < ks.len() && ks[k] == p;
                if k < ks.len() - 1 {
                    assert(ks[k] < ks[ks.len() - 1]);
                }
            }
        }
        lemma_no_change_between(ip, old_h, new_h, (m + 1) as nat, c);
    }
}

/// Appends the port changes of one host to `out`, walking the ports that
/// either snapshot of the host lists, in increasing order.
fn push_host_changes(old_h: &HostSnapshot, new_h: &HostSnapshot, out: &mut Vec<PortChange>)
    ensures
        change_views(final(out)@) == change_views(old(out)@) + host_changes(*old_h, *new_h),
{
    let ghost start = change_views(out@);
    let ports = union_ports(&old_h.ports, &new_h.ports);
    let mut i: usize = 0;
    while i < ports.len()
        invariant
            i <= ports@.len(),
            change_views(out@) == start + changes_at(new_h.ip@, *old_h, *new_h, ports@.take(i as int)),
        decreases ports@.len() - i,
    {
        let port = ports[i];
        assert(ports@.take(i + 1).drop_last() =~= ports@.take(i as int));
        let from = port_state_text(&old_h.ports, port);
        let to = port_state_text(&new_h.ports, port);
        if from != to {
            let ghost before = out@;
            out.push(PortChange { ip: new_h.ip.clone(), port, from, to });
            assert(change_views(out@) =~= change_views(before).push(out@.last()@));
        }
        i = i + 1;
    }
    proof {
        assert(ports@.take(i as int) =~= ports@);
        assert forall|p: u16| p < 65536 && port_text(*old_h, p) != port_text(*new_h, p) implies ports@.contains(p) by {
        }
        lemma_changes_at_sorted(new_h.ip@, *old_h, *new_h, ports@, 65536);
    }
}

/// The difference from `old` to `new`: the addresses only `new` has, those
/// only `old` has, and, for each host of `new` that `old` also has, every
/// port whose state text differs (a missing port reads `absent`).
pub fn compute_diff(old: &ScanSnapshot, new: &ScanSnapshot) -> (d: DiffResult)
    ensures
        is_diff(*old, *new, d),
{
    let new_hosts = missing_from(&new.hosts, &old.hosts);
    let lost_hosts = missing_from(&old.hosts, &new.hosts);
    let mut port_changes: Vec<PortChange> = Vec::new();
    let mut k: usize = 0;
    while k < new.hosts.len()
        invariant
            k <= new.hosts@.len(),
            change_views(port_changes@) == port_changes_spec(
                old.hosts@,
                new.hosts@.take(k as int),
            ),
        decreases new.hosts@.len() - k,
    {
        let new_host = &new.hosts[k];
        assert(new.hosts@.take(k + 1).drop_last() =~= new.hosts@.take(k as int));
        match last_with_ip(&old.hosts, &new_host.ip) {
            Some(j) => {
                push_host_changes(&old.hosts[j], new_host, &mut port_changes);
            },
            None => {},
        }
        k = k + 1;
    }
    assert(new.hosts@.take(k as int) =~= new.hosts@);
    DiffResult { new_hosts, lost_hosts, port_changes }
}

/// No two hosts of `hosts` share an address text.
pub open spec fn distinct_ips(hosts: Seq<HostSnapshot>) -> bool {
    forall|i: int, j: int|
        0 <= i < hosts.len() && 0 <= j < hosts.len() && i != j ==> (#[trigger] hosts[i]).ip@
            != (#[trigger] hosts[j]).ip@
}

proof fn lemma_missing_none(a: Seq<HostSnapshot>, b: Seq<HostSnapshot>)
    requires
        forall|i: int| 0 <= i < a.len() ==> has_ip(b, (#[trigger] a[i]).ip@),
    ensures
        hosts_missing_from(a, b) == Seq::<Seq<char>>::empty(),
    decreases a.len(),
{
    if a.len() > 0 {
        assert forall|i: int| 0 <= i < a.drop_last().len() implies has_ip(
            b,
            (#[trigger] a.drop_last()[i]).ip@,
        ) by {
            assert(a.drop_last()[i] == a[i]);
        }
        lemma_missing_none(a.drop_last(), b);
        assert(has_ip(b, a[a.len() - 1].ip@));
    }
}

proof fn lemma_last_index_distinct(h: Seq<HostSnapshot>, k: int)
    requires
        distinct_ips(h),
        0 <= k < h.len(),
    ensures
        last_index_with_ip(h, h[k].ip@) == k,
    decreases h.len(),
{
    if k < h.len() - 1 {
        assert(h[h.len() - 1].ip@ != h[k].ip@);
        let t = h.drop_last();
        assert(t[k] == h[k]);
        assert forall|i: int, j: int|
            0 <= i < t.len() && 0 <= j < t.len() && i != j implies (#[trigger] t[i]).ip@
            != (#[trigger] t[j]).ip@ by {
            assert(t[i] == h[i] && t[j] == h[j]);
        }
        lemma_last_index_distinct(t, k);
    }
}

proof fn lemma_same_host_no_changes(ip: Seq<char>, h: HostSnapshot, n: nat)
    ensures
        changes_below(ip, h, h, n) == Seq::<(Seq<char>, u16, Seq<char>, Seq<char>)>::empty(),
    decreases n,
{
    if n > 0 {
        lemma_same_host_no_changes(ip, h, (n - 1) as nat);
    }
}

proof fn lemma_prefix_no_changes(h: Seq<HostSnapshot>, k: int)
    requires
        distinct_ips(h),
        0 <= k <= h.len(),
    ensures
        port_changes_spec(h, h.take(k)) == Seq::<(Seq<char>, u16, Seq<char>, Seq<char>)>::empty(),
    decreases k,
{
    if k > 0 {
        assert(h.take(k).drop_last() =~= h.take(k - 1));
        lemma_prefix_no_changes(h, k - 1);
        lemma_last_index_distinct(h, k - 1);
        lemma_same_host_no_changes(h[k - 1].ip@, h[k - 1], 65536);
        assert(h.take(k).last() == h[k - 1]);
    }
}

/// Comparing a snapshot whose addresses are all distinct with itself
/// reports no new host, no lost host and no port change.
pub proof fn law_diff_with_itself_is_empty(s: ScanSnapshot, d: DiffResult)
    requires
        distinct_ips(s.hosts@),
        is_diff(s, s, d),
    ensures
        d.new_hosts@.len() == 0,
        d.lost_hosts@.len() == 0,
        d.port_changes@.len() == 0,
{
    let h = s.hosts@;
    assert forall|i: int| 0 <= i < h.len() implies has_ip(h, (#[trigger] h[i]).ip@) by {}
    lemma_missing_none(h, h);
    lemma_prefix_no_changes(h, h.len() as int);
    assert(h.take(h.len() as int) =~= h);
    assert(texts(d.new_hosts@).len() == d.new_hosts@.len());
    assert(texts(d.lost_hosts@).len() == d.lost_hosts@.len());
    assert(change_views(d.port_changes@).len() == d.port_changes@.len());
}

/// The hosts new from `a` to `b` are the hosts lost from `b` to `a`, and
/// the other way round.
pub proof fn law_diff_reversed_swaps_hosts(
    a: ScanSnapshot,
    b: ScanSnapshot,
    forward: DiffResult,
    backward: DiffResult,
)
    requires
        is_diff(a, b, forward),
        is_diff(b, a, backward),
    ensures
        texts(forward.new_hosts@) == texts(backward.lost_hosts@),
        texts(forward.lost_hosts@) == texts(backward.new_hosts@),
{
}

/// A host address is reported new exactly when `new` has it and `old` does not.
pub proof fn law_new_host_membership(old: ScanSnapshot, new: ScanSnapshot, d: DiffResult, ip: Seq<char>)
    requires
        is_diff(old, new, d),
    ensures
        texts(d.new_hosts@).contains(ip) <==> (has_ip(new.hosts@, ip) && !has_ip(old.hosts@, ip)),
{
    lemma_missing_membership(new.hosts@, old.hosts@, ip);
}

proof fn lemma_missing_membership(a: Seq<HostSnapshot>, b: Seq<HostSnapshot>, ip: Seq<char>)
    ensures
        hosts_missing_from(a, b).contains(ip) <==> (has_ip(a, ip) && !has_ip(b, ip)),
    decreases a.len(),
{
    if a.len() > 0 {
        let t = a.drop_last();
        let last = a[a.len() - 1].ip@;
        lemma_missing_membership(t, b, ip);
        let done = hosts_missing_from(t, b);
        let m = hosts_missing_from(a, b);
        assert(m == if has_ip(b, last) { done } else { done.push(last) });
        if m.contains(ip) {
            let k = choose|k: int| 0 <= k < m.len() && m[k] == ip;
            if k < done.len() {
                assert(done[k] == ip);
                assert(done.contains(ip));
                let i = choose|i: int| 0 <= i < t.len() && (#[trigger] t[i]).ip@ == ip;
                assert(a[i] == t[i]);
                assert(has_ip(a, ip));
            } else {
                assert(ip == last);
                assert(has_ip(a, ip));
            }
        }
        if has_ip(a, ip) && !has_ip(b, ip) {
            let i = choose|i: int| 0 <= i < a.len() && (#[trigger] a[i]).ip@ == ip;
            if i < a.len() - 1 {
                assert(t[i] == a[i]);
                assert(has_ip(t, ip));
                let k = choose|k: int| 0 <= k < done.len() && done[k] == ip;
                assert(m[k] == ip);
            } else {
                assert(m == done.push(ip));
                assert(m[done.len() as int] == ip);
            }
        }
    }
}

proof fn lemma_last_index_found(hosts: Seq<HostSnapshot>, ip: Seq<char>)
    ensures
        last_index_with_ip(hosts, ip) >= 0 ==> last_index_with_ip(hosts, ip) < hosts.len()
            && hosts[last_index_with_ip(hosts, ip)].ip@ == ip,
    decreases hosts.len(),
{
    if hosts.len() > 0 && hosts.last().ip@ != ip {
        lemma_last_index_found(hosts.drop_last(), ip);
    }
}

proof fn lemma_changes_below_differ(ip: Seq<char>, old_h: HostSnapshot, new_h: HostSnapshot, count: nat)
    ensures
        forall|i: int|
            0 <= i < changes_below(ip, old_h, new_h, count).len() ==> {
                let c = #[trigger] changes_below(ip, old_h, new_h, count)[i];
                c.0 == ip && c.2 != c.3
            },
    decreases count,
{
    if count > 0 {
        let prev = (count - 1) as nat;
        lemma_changes_below_differ(ip, old_h, new_h, prev);
        let done = changes_below(ip, old_h, new_h, prev);
        let all = changes_below(ip, old_h, new_h, count);
        assert forall|i: int| 0 <= i < all.len() implies {
            let c = #[trigger] all[i];
            c.0 == ip && c.2 != c.3
        } by {
            if i < done.len() {
                assert(all[i] == done[i]);
            }
        }
    }
}

proof fn lemma_port_changes_real(old_hosts: Seq<HostSnapshot>, new_hosts: Seq<HostSnapshot>)
    ensures
        forall|i: int|
            0 <= i < port_changes_spec(old_hosts, new_hosts).len() ==> {
                let c = #[trigger] port_changes_spec(old_hosts, new_hosts)[i];
                &&& c.2 != c.3
                &&& has_ip(old_hosts, c.0)
                &&& has_ip(new_hosts, c.0)
            },
    decreases new_hosts.len(),
{
    if new_hosts.len() > 0 {
        let rest = new_hosts.drop_last();
        let h = new_hosts.last();
        lemma_port_changes_real(old_hosts, rest);
        let done = port_changes_spec(old_hosts, rest);
        let j = last_index_with_ip(old_hosts, h.ip@);
        lemma_last_index_found(old_hosts, h.ip@);
        let all = port_changes_spec(old_hosts, new_hosts);
        assert forall|i: int| 0 <= i < all.len() implies {
            let c = #[trigger] all[i];
            &&& c.2 != c.3
            &&& has_ip(old_hosts, c.0)
            &&& has_ip(new_hosts, c.0)
        } by {
            if i < done.len() {
                assert(all[i] == done[i]);
                let k = choose|k: int| 0 <= k < rest.len() && (#[trigger] rest[k]).ip@ == done[i].0;
                assert(new_hosts[k] == rest[k]);
            } else {
                let hc = host_changes(old_hosts[j], h);
                lemma_changes_below_differ(h.ip@, old_hosts[j], h, 65536);
                assert(all[i] == hc[i - done.len()]);
                assert(old_hosts[j].ip@ == h.ip@);
                assert(new_hosts[new_hosts.len() - 1] == h);
            }
        }
    }
}

/// Every reported port change is a real one: its two state texts differ,
/// and its host is in both snapshots.
pub proof fn law_reported_changes_are_real(old: ScanSnapshot, new: ScanSnapshot, d: DiffResult)
    requires
        is_diff(old, new, d),
    ensures
        forall|i: int|
            0 <= i < d.port_changes@.len() ==> {
                let c = #[trigger] d.port_changes@[i];
                &&& c.from@ != c.to@
                &&& has_ip(old.hosts@, c.ip@)
                &&& has_ip(new.hosts@, c.ip@)
            },
{
    lemma_port_changes_real(old.hosts@, new.hosts@);
    assert forall|i: int| 0 <= i < d.port_changes@.len() implies {
        let c = #[trigger] d.port_changes@[i];
        &&& c.from@ != c.to@
        &&& has_ip(old.hosts@, c.ip@)
        &&& has_ip(new.hosts@, c.ip@)
    } by {
        assert(change_views(d.port_changes@)[i] == d.port_changes@[i]@);
        assert(port_changes_spec(old.hosts@, new.hosts@)[i] == d.port_changes@[i]@);
    }
}

/// A port change between a host of `old` and a host of `new` with the same
/// address: the port's state texts there, which differ.
pub open spec fn is_change_between(
    old_hosts: Seq<HostSnapshot>,
    new_hosts: Seq<HostSnapshot>,
    t: (Seq<char>, u16, Seq<char>, Seq<char>),
) -> bool {
    exists|j: int, i: int|
        0 <= j < old_hosts.len() && 0 <= i < new_hosts.len() && (#[trigger] old_hosts[j]).ip@ == t.0
            && (#[trigger] new_hosts[i]).ip@ == t.0 && port_text(old_hosts[j], t.1) == t.2
            && port_text(new_hosts[i], t.1) == t.3 && t.2 != t.3
}

/// A change with its two state texts swapped.
pub open spec fn swapped(t: (Seq<char>, u16, Seq<char>, Seq<char>)) -> (Seq<char>, u16, Seq<char>, Seq<char>) {
    (t.0, t.1, t.3, t.2)
}

proof fn lemma_changes_below_members(
    ip: Seq<char>,
    old_h: HostSnapshot,
    new_h: HostSnapshot,
    count: nat,
    t: (Seq<char>, u16, Seq<char>, Seq<char>),
)
    requires
        count <= 65536,
    ensures
        changes_below(ip, old_h, new_h, count).contains(t) <==> (t.0 == ip && t.1 < count && t.2
            == port_text(old_h, t.1) && t.3 == port_text(new_h, t.1) && t.2 != t.3),
        forall|a: int, b: int|
            0 <= a < b < changes_below(ip, old_h, new_h, count).len() ==> (#[trigger] changes_below(
                ip,
                old_h,
                new_h,
                count,
            )[a]).1 != (#[trigger] changes_below(ip, old_h, new_h, count)[b]).1,
        forall|k: int|
            0 <= k < changes_below(ip, old_h, new_h, count).len() ==> (#[trigger] changes_below(
                ip,
                old_h,
                new_h,
                count,
            )[k]).1 < count,
    decreases count,
{
    if count > 0 {
        let prev = (count - 1) as nat;
        let p = prev as u16;
        lemma_changes_below_members(ip, old_h, new_h, prev, t);
        let done = changes_below(ip, old_h, new_h, prev);
        let all = changes_below(ip, old_h, new_h, count);
        if port_text(old_h, p) != port_text(new_h, p) {
            let x = (ip, p, port_text(old_h, p), port_text(new_h, p));
            assert(all == done.push(x));
            assert(!done.contains(x));
            if all.contains(t) {
                let k = choose|k: int| 0 <= k < all.len() && all[k] == t;
                if k < done.len() {
                    assert(done[k] == t);
                    assert(done.contains(t));
                }
            }
            if t.0 == ip && t.1 < count && t.2 == port_text(old_h, t.1) && t.3 == port_text(new_h, t.1)
                && t.2 != t.3 {
                if t.1 == p {
                    assert(all[done.len() as int] == t);
                } else {
                    let k = choose|k: int| 0 <= k < done.len() && done[k] == t;
                    assert(all[k] == t);
                }
            }
            assert forall|a: int, b: int| 0 <= a < b < all.len() implies (#[trigger] all[a]).1 != (
            #[trigger] all[b]).1 by {
                if b < done.len() {
                    assert(all[a] == done[a] && all[b] == done[b]);
                } else {
                    assert(all[a] == done[a]);
                    assert(done[a].1 < prev);
                }
            }
        } else {
            assert(all == done);
        }
    }
}

proof fn lemma_port_changes_members(
    old_hosts: Seq<HostSnapshot>,
    new_hosts: Seq<HostSnapshot>,
    t: (Seq<char>, u16, Seq<char>, Seq<char>),
)
    requires
        distinct_ips(old_hosts),
    ensures
        port_changes_spec(old_hosts, new_hosts).contains(t) <==> is_change_between(
            old_hosts,
            new_hosts,
            t,
        ),
    decreases new_hosts.len(),
{
    if new_hosts.len() > 0 {
        let rest = new_hosts.drop_last();
        let h = new_hosts.last();
        let n = new_hosts.len() - 1;
        assert(new_hosts[n] == h);
        lemma_port_changes_members(old_hosts, rest, t);
        lemma_last_index_found(old_hosts, h.ip@);
        let done = port_changes_spec(old_hosts, rest);
        let all = port_changes_spec(old_hosts, new_hosts);
        let j = last_index_with_ip(old_hosts, h.ip@);
        if j >= 0 {
            let hc = host_changes(old_hosts[j], h);
            lemma_changes_below_members(h.ip@, old_hosts[j], h, 65536, t);
            assert(all == done + hc);
            if all.contains(t) {
                let k = choose|k: int| 0 <= k < all.len() && all[k] == t;
                if k < done.len() {
                    assert(done[k] == t);
                    assert(done.contains(t));
                    let (jj, ii) = choose|jj: int, ii: int|
                        0 <= jj < old_hosts.len() && 0 <= ii < rest.len() && (#[trigger] old_hosts[jj]).ip@
                            == t.0 && (#[trigger] rest[ii]).ip@ == t.0 && port_text(old_hosts[jj], t.1)
                            == t.2 && port_text(rest[ii], t.1) == t.3 && t.2 != t.3;
                    assert(new_hosts[ii] == rest[ii]);
                } else {
                    assert(hc[k - done.len()] == t);
                    assert(hc.contains(t));
                    assert(new_hosts[n].ip@ == t.0);
                }
            }
            if is_change_between(old_hosts, new_hosts, t) {
                let (jj, ii) = choose|jj: int, ii: int|
                    0 <= jj < old_hosts.len() && 0 <= ii < new_hosts.len() && (#[trigger] old_hosts[jj]).ip@
                        == t.0 && (#[trigger] new_hosts[ii]).ip@ == t.0 && port_text(old_hosts[jj], t.1)
                        == t.2 && port_text(new_hosts[ii], t.1) == t.3 && t.2 != t.3;
                if ii < n {
                    assert(rest[ii] == new_hosts[ii]);
                    assert(is_change_between(old_hosts, rest, t));
                    let k = choose|k: int| 0 <= k < done.len() && done[k] == t;
                    assert(all[k] == t);
                } else {
                    lemma_last_index_distinct(old_hosts, jj);
                    assert(jj == j);
                    assert(hc.contains(t));
                    let k = choose|k: int| 0 <= k < hc.len() && hc[k] == t;
                    assert(all[done.len() + k] == t);
                }
            }
        } else {
            assert(all == done);
            if is_change_between(old_hosts, new_hosts, t) {
                let (jj, ii) = choose|jj: int, ii: int|
                    0 <= jj < old_hosts.len() && 0 <= ii < new_hosts.len() && (#[trigger] old_hosts[jj]).ip@
                        == t.0 && (#[trigger] new_hosts[ii]).ip@ == t.0 && port_text(old_hosts[jj], t.1)
                        == t.2 && port_text(new_hosts[ii], t.1) == t.3 && t.2 != t.3;
                if ii == n {
                    lemma_last_index_distinct(old_hosts, jj);
                    assert(false);
                }
                assert(rest[ii] == new_hosts[ii]);
                assert(is_change_between(old_hosts, rest, t));
            }
            if done.contains(t) {
                let (jj, ii) = choose|jj: int, ii: int|
                    0 <= jj < old_hosts.len() && 0 <= ii < rest.len() && (#[trigger] old_hosts[jj]).ip@
                        == t.0 && (#[trigger] rest[ii]).ip@ == t.0 && port_text(old_hosts[jj], t.1)
                        == t.2 && port_text(rest[ii], t.1) == t.3 && t.2 != t.3;
                assert(new_hosts[ii] == rest[ii]);
            }
        }
    }
}

proof fn lemma_port_changes_distinct(old_hosts: Seq<HostSnapshot>, new_hosts: Seq<HostSnapshot>)
    requires
        distinct_ips(new_hosts),
    ensures
        forall|a: int, b: int|
            0 <= a < b < port_changes_spec(old_hosts, new_hosts).len() ==> {
                let x = #[trigger] port_changes_spec(old_hosts, new_hosts)[a];
                let y = #[trigger] port_changes_spec(old_hosts, new_hosts)[b];
                x.0 != y.0 || x.1 != y.1
            },
    decreases new_hosts.len(),
{
    if new_hosts.len() > 0 {
        let rest = new_hosts.drop_last();
        let h = new_hosts.last();
        let n = new_hosts.len() - 1;
        assert(new_hosts[n] == h);
        assert forall|a: int, b: int|
            0 <= a < rest.len() && 0 <= b < rest.len() && a != b implies (#[trigger] rest[a]).ip@
            != (#[trigger] rest[b]).ip@ by {
            assert(rest[a] == new_hosts[a] && rest[b] == new_hosts[b]);
        }
        lemma_port_changes_distinct(old_hosts, rest);
        lemma_port_changes_real(old_hosts, rest);
        let done = port_changes_spec(old_hosts, rest);
        let all = port_changes_spec(old_hosts, new_hosts);
        let j = last_index_with_ip(old_hosts, h.ip@);
        if j >= 0 {
            let hc = host_changes(old_hosts[j], h);
            lemma_changes_below_differ(h.ip@, old_hosts[j], h, 65536);
            lemma_changes_below_members(h.ip@, old_hosts[j], h, 65536, hc[0]);
            assert(all == done + hc);
            assert forall|a: int, b: int| 0 <= a < b < all.len() implies (#[trigger] all[a]).0 != (
            #[trigger] all[b]).0 || all[a].1 != all[b].1 by {
                if b < done.len() {
                    assert(all[a] == done[a] && all[b] == done[b]);
                } else if a >= done.len() {
                    assert(all[a] == hc[a - done.len()] && all[b] == hc[b - done.len()]);
                } else {
                    assert(all[a] == done[a] && all[b] == hc[b - done.len()]);
                    assert(hc[b - done.len()].0 == h.ip@);
                    let k = choose|k: int| 0 <= k < rest.len() && (#[trigger] rest[k]).ip@ == done[a].0;
                    assert(rest[k] == new_hosts[k]);
                }
            }
        }
    }
}

/// Comparing two snapshots (each with distinct addresses) the other way
/// round reports the same port changes with the two states swapped: both
/// lists have no repeats, and a change is in one exactly when its swap is
/// in the other (so, as multisets, one is the other swapped).
pub proof fn law_diff_reversed_swaps_changes(
    a: ScanSnapshot,
    b: ScanSnapshot,
    forward: DiffResult,
    backward: DiffResult,
    t: (Seq<char>, u16, Seq<char>, Seq<char>),
)
    requires
        distinct_ips(a.hosts@),
        distinct_ips(b.hosts@),
        is_diff(a, b, forward),
        is_diff(b, a, backward),
    ensures
        change_views(forward.port_changes@).no_duplicates(),
        change_views(backward.port_changes@).no_duplicates(),
        change_views(forward.port_changes@).contains(t) <==> change_views(
            backward.port_changes@,
        ).contains(swapped(t)),
{
    lemma_port_changes_distinct(a.hosts@, b.hosts@);
    lemma_port_changes_distinct(b.hosts@, a.hosts@);
    lemma_port_changes_members(a.hosts@, b.hosts@, t);
    lemma_port_changes_members(b.hosts@, a.hosts@, swapped(t));
    if is_change_between(a.hosts@, b.hosts@, t) {
        let (j, i) = choose|j: int, i: int|
            0 <= j < a.hosts@.len() && 0 <= i < b.hosts@.len() && (#[trigger] a.hosts@[j]).ip@ == t.0
                && (#[trigger] b.hosts@[i]).ip@ == t.0 && port_text(a.hosts@[j], t.1) == t.2
                && port_text(b.hosts@[i], t.1) == t.3 && t.2 != t.3;
        assert(is_change_between(b.hosts@, a.hosts@, swapped(t)));
    }
    if is_change_between(b.hosts@, a.hosts@, swapped(t)) {
        let u = swapped(t);
        let (j, i) = choose|j: int, i: int|
            0 <= j < b.hosts@.len() && 0 <= i < a.hosts@.len() && (#[trigger] b.hosts@[j]).ip@ == u.0
                && (#[trigger] a.hosts@[i]).ip@ == u.0 && port_text(b.hosts@[j], u.1) == u.2
                && port_text(a.hosts@[i], u.1) == u.3 && u.2 != u.3;
        assert(is_change_between(a.hosts@, b.hosts@, t));
    }
}

/// When the earlier snapshot lists each address once, a change is reported
/// exactly when it is a real one: a host of each snapshot with its address
/// whose state texts for the port differ, the change carrying both texts.
pub proof fn law_changes_are_exactly_the_real_ones(
    old: ScanSnapshot,
    new: ScanSnapshot,
    d: DiffResult,
    t: (Seq<char>, u16, Seq<char>, Seq<char>),
)
    requires
        distinct_ips(old.hosts@),
        is_diff(old, new, d),
    ensures
        change_views(d.port_changes@).contains(t) <==> is_change_between(old.hosts@, new.hosts@, t),
{
    lemma_port_changes_members(old.hosts@, new.hosts@, t);
}

/// When the later snapshot lists each address once, no two reported
/// changes are for the same address and port.
pub proof fn law_no_port_reported_twice(old: ScanSnapshot, new: ScanSnapshot, d: DiffResult)
    requires
        distinct_ips(new.hosts@),
        is_diff(old, new, d),
    ensures
        forall|a: int, b: int|
            0 <= a < b < d.port_changes@.len() ==> (#[trigger] d.port_changes@[a]).ip@ != (
            #[trigger] d.port_changes@[b]).ip@ || d.port_changes@[a].port != d.port_changes@[b].port,
{
    lemma_port_changes_distinct(old.hosts@, new.hosts@);
    let cv = change_views(d.port_changes@);
    assert forall|a: int, b: int| 0 <= a < b < d.port_changes@.len() implies (
    #[trigger] d.port_changes@[a]).ip@ != (#[trigger] d.port_changes@[b]).ip@
        || d.port_changes@[a].port != d.port_changes@[b].port by {
        assert(cv[a] == d.port_changes@[a]@ && cv[b] == d.port_changes@[b]@);
    }
}

} // verus!
