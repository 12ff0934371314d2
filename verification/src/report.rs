use vstd::prelude::*;
use crate::models::{HostInfo, IpAddress, ScanResult};

verus! {

/// The addresses of the hosts reported up, in the order of the reports.
pub open spec fn up_hosts(infos: Seq<HostInfo>) -> Seq<IpAddress>
    decreases infos.len(),
{
    if infos.len() == 0 {
        seq![]
    } else if infos.last().is_up {
        up_hosts(infos.drop_last()).push(infos.last().ip)
    } else {
        up_hosts(infos.drop_last())
    }
}

/// The addresses of the hosts that host discovery reported up, in the
/// order of the reports.
pub fn live_hosts(infos: &Vec<HostInfo>) -> (res: Vec<IpAddress>)
    ensures
        res@ == up_hosts(infos@),
{
    let n = infos.len();
    let mut res: Vec<IpAddress> = Vec::new();
    let mut i: usize = 0;
    while i < n
        invariant
            n == infos@.len(),
            i <= n,
            res@ == up_hosts(infos@.take(i as int)),
        decreases n - i,
    {
        assert(infos@.take(i + 1).drop_last() =~= infos@.take(i as int));
        if infos[i].is_up {
            res.push(infos[i].ip);
        }
        i = i + 1;
    }
    assert(infos@.take(n as int) =~= infos@);
    res
}

proof fn lemma_push_contains<A>(s: Seq<A>, x: A, y: A)
    ensures
        s.push(x).contains(y) <==> (s.contains(y) || x == y),
{
    if s.push(x).contains(y) {
        let k = choose|k: int| 0 <= k < s.push(x).len() && s.push(x)[k] == y;
        if k < s.len() {
            assert(s[k] == y);
        }
    }
    if s.contains(y) {
        let k = choose|k: int| 0 <= k < s.len() && s[k] == y;
        assert(s.push(x)[k] == y);
    }
    assert(s.push(x)[s.len() as int] == x);
}

/// Which port scans run.
#[derive(Clone, Copy, Debug, PartialEq, Eq, Structural)]
pub struct ScanPlan {
    pub tcp: bool,
    pub udp: bool,
}

/// Which port scans run for `port_count` ports: the UDP scan where it is
/// asked for, and the TCP scan unless a UDP scan is asked for with no port
/// to scan.
pub fn scan_plan(udp: bool, port_count: usize) -> (res: ScanPlan)
    ensures
        res.udp == udp,
        res.tcp == (!udp || port_count > 0),
{
    ScanPlan { tcp: !udp || (udp && port_count > 0), udp }
}

/// `x` placed into `t` after every element whose port is not above its own.
pub open spec fn insert_by_port(x: ScanResult, t: Seq<ScanResult>) -> Seq<ScanResult>
    decreases t.len(),
{
    if t.len() == 0 {
        seq![x]
    } else if t.last().port <= x.port {
        t.push(x)
    } else {
        insert_by_port(x, t.drop_last()).push(t.last())
    }
}

/// `s` sorted by port, keeping the order of results with the same port (the
/// order that a stable sort by port gives).
pub open spec fn sort_by_port(s: Seq<ScanResult>) -> Seq<ScanResult>
    decreases s.len(),
{
    if s.len() == 0 {
        seq![]
    } else {
        insert_by_port(s.last(), sort_by_port(s.drop_last()))
    }
}

proof fn lemma_insert_at(x: ScanResult, t: Seq<ScanResult>, j: int)
    requires
        0 <= j <= t.len(),
        forall|k: int| j <= k < t.len() ==> (#[trigger] t[k]).port > x.port,
        j > 0 ==> t[j - 1].port <= x.port,
    ensures
        insert_by_port(x, t) == t.insert(j, x),
    decreases t.len(),
{
    if j == t.len() {
        assert(t.insert(j, x) =~= t.push(x));
    } else {
        lemma_insert_at(x, t.drop_last(), j);
        assert(t.insert(j, x) =~= t.drop_last().insert(j, x).push(t.last()));
    }
}

/// `results` sorted by port, keeping the order of results with the same
/// port.
pub fn sort_results_by_port(results: &Vec<ScanResult>) -> (res: Vec<ScanResult>)
    ensures
        res@ == sort_by_port(results@),
{
    let n = results.len();
    let mut out: Vec<ScanResult> = Vec::new();
    let mut i: usize = 0;
    while i < n
        invariant
            n == results@.len(),
            i <= n,
            out@ == sort_by_port(results@.take(i as int)),
        decreases n - i,
    {
        let x = results[i].clone();
        let mut j = out.len();
        while j > 0 && out[j - 1].port > x.port
            invariant
                j <= out@.len(),
                forall|k: int| j <= k < out@.len() ==> (#[trigger] out@[k]).port > x.port,
            decreases j,
        {
            j = j - 1;
        }
        proof {
            lemma_insert_at(x, out@, j as int);
            assert(results@.take(i + 1).drop_last() =~= results@.take(i as int));
        }
        out.insert(j, x);
        i = i + 1;
    }
    assert(results@.take(n as int) =~= results@);
    out
}

/// The results about the host `ip`, in their order.
pub open spec fn results_for(results: Seq<ScanResult>, ip: IpAddress) -> Seq<ScanResult>
    decreases results.len(),
{
    if results.len() == 0 {
        seq![]
    } else if results.last().ip == ip {
        results_for(results.drop_last(), ip).push(results.last())
    } else {
        results_for(results.drop_last(), ip)
    }
}

/// The open ports of one live host, as the scan summary lists them.
#[derive(Debug)]
pub struct HostReport {
    pub ip: IpAddress,
    /// The host's results sorted by port, or none where no open port of it
    /// is left to list.
    pub results: Option<Vec<ScanResult>>,
}

/// What the summary lists for the `k`-th live host: its results sorted by
/// port; none where it has no results, or where it already occurred earlier
/// among the live hosts (its results were listed there).
pub open spec fn report_for(live: Seq<IpAddress>, results: Seq<ScanResult>, k: int) -> Option<
    Seq<ScanResult>,
> {
    let ip = live[k];
    if live.take(k).contains(ip) || results_for(results, ip).len() == 0 {
        None
    } else {
        Some(sort_by_port(results_for(results, ip)))
    }
}

/// The scan summary: for each live host, in order, its results sorted by
/// port (keeping the order of results with the same port), or none where it
/// has no result or occurred earlier in the list.
pub fn scan_summary(live_hosts: &Vec<IpAddress>, results: &Vec<ScanResult>) -> (res: Vec<HostReport>)
    ensures
        res@.len() == live_hosts@.len(),
        forall|k: int|
            0 <= k < res@.len() ==> (#[trigger] res@[k]).ip == live_hosts@[k] && match report_for(
                live_hosts@,
                results@,
                k,
            ) {
                Some(s) => res@[k].results matches Some(v) && v@ == s,
                None => res@[k].results is None,
            },
{
    let n = live_hosts.len();
    let m = results.len();
    let mut res: Vec<HostReport> = Vec::new();
    let mut k: usize = 0;
    while k < n
        invariant
            n == live_hosts@.len(),
            m == results@.len(),
            k <= n,
            res@.len() == k,
            forall|q: int|
                0 <= q < k ==> (#[trigger] res@[q]).ip == live_hosts@[q] && match report_for(
                    live_hosts@,
                    results@,
                    q,
                ) {
                    Some(s) => res@[q].results matches Some(v) && v@ == s,
                    None => res@[q].results is None,
                },
        decreases n - k,
    {
        let ip = live_hosts[k];
        let mut seen_before = false;
        let mut q: usize = 0;
        while q < k
            invariant
                n == live_hosts@.len(),
                k < n,
                q <= k,
                seen_before == live_hosts@.take(k as int).take(q as int).contains(ip),
            decreases k - q,
        {
            let ghost pre = live_hosts@.take(k as int);
            assert(pre.take(q + 1) =~= pre.take(q as int).push(live_hosts@[q as int]));
            proof {
                lemma_push_contains(pre.take(q as int), live_hosts@[q as int], ip);
            }
            if live_hosts[q] == ip {
                seen_before = true;
            }
            q = q + 1;
        }
        assert(live_hosts@.take(k as int).take(k as int) =~= live_hosts@.take(k as int));
        let mut mine: Vec<ScanResult> = Vec::new();
        let mut j: usize = 0;
        while j < m
            invariant
                m == results@.len(),
                j <= m,
                mine@ == results_for(results@.take(j as int), ip),
            decreases m - j,
        {
            assert(results@.take(j + 1).drop_last() =~= results@.take(j as int));
            if results[j].ip == ip {
                mine.push(results[j].clone());
            }
            j = j + 1;
        }
        assert(results@.take(m as int) =~= results@);
        let report = if seen_before || mine.len() == 0 {
            HostReport { ip, results: None }
        } else {
            HostReport { ip, results: Some(sort_results_by_port(&mine)) }
        };
        res.push(report);
        k = k + 1;
    }
    res
}

} // verus!

verus! {

/// The results with port `p`, in their order.
pub open spec fn with_port(s: Seq<ScanResult>, p: u16) -> Seq<ScanResult>
    decreases s.len(),
{
    if s.len() == 0 {
        seq![]
    } else if s.last().port == p {
        with_port(s.drop_last(), p).push(s.last())
    } else {
        with_port(s.drop_last(), p)
    }
}

/// Sorted by port (ports never decrease).
pub open spec fn port_sorted(s: Seq<ScanResult>) -> bool {
    forall|i: int, j: int| 0 <= i < j < s.len() ==> s[i].port <= s[j].port
}

proof fn lemma_insert_by_port(x: ScanResult, t: Seq<ScanResult>, p: u16)
    requires
        port_sorted(t),
    ensures
        port_sorted(insert_by_port(x, t)),
        insert_by_port(x, t).len() == t.len() + 1,
        with_port(insert_by_port(x, t), p) == if x.port == p {
            with_port(t, p).push(x)
        } else {
            with_port(t, p)
        },
    decreases t.len(),
{
    if t.len() == 0 {
        assert(seq![x].drop_last() =~= Seq::<ScanResult>::empty());
        assert(seq![x].last() == x);
        assert(with_port(t, p) == Seq::<ScanResult>::empty());
        assert(with_port(seq![x].drop_last(), p) == Seq::<ScanResult>::empty());
        if x.port == p {
            assert(with_port(seq![x], p) =~= with_port(t, p).push(x));
        } else {
            assert(with_port(seq![x], p) =~= with_port(t, p));
        }
    } else if t.last().port <= x.port {
        assert(t.push(x).drop_last() =~= t);
        assert(t.push(x).last() == x);
        assert(insert_by_port(x, t) == t.push(x));
    } else {
        let d = t.drop_last();
        assert(port_sorted(d));
        lemma_insert_by_port(x, d, p);
        let r = insert_by_port(x, d);
        assert(r.push(t.last()).drop_last() =~= r);
        assert(r.push(t.last()).last() == t.last());
        assert(insert_by_port(x, t) == r.push(t.last()));
        if t.last().port == p {
            assert(with_port(insert_by_port(x, t), p) == with_port(r, p).push(t.last()));
        } else {
            assert(with_port(insert_by_port(x, t), p) == with_port(r, p));
        }
        assert forall|i: int, j: int| 0 <= i < j < r.len() + 1 implies #[trigger] r.push(t.last())[i].port <= #[trigger] r.push(t.last())[j].port by {
            if j == r.len() {
                lemma_insert_by_port_bounded(x, d, t.last().port);
                assert(r.push(t.last())[i] == r[i]);
            } else {
                assert(r.push(t.last())[i] == r[i]);
                assert(r.push(t.last())[j] == r[j]);
            }
        }
    }
}

proof fn lemma_insert_by_port_bounded(x: ScanResult, t: Seq<ScanResult>, bound: u16)
    requires
        x.port <= bound,
        forall|k: int| 0 <= k < t.len() ==> (#[trigger] t[k]).port <= bound,
    ensures
        forall|k: int| 0 <= k < insert_by_port(x, t).len() ==> (#[trigger] insert_by_port(x, t)[k]).port <= bound,
    decreases t.len(),
{
    if t.len() > 0 && t.last().port > x.port {
        let d = t.drop_last();
        assert forall|k: int| 0 <= k < d.len() implies (#[trigger] d[k]).port <= bound by {
            assert(d[k] == t[k]);
        }
        lemma_insert_by_port_bounded(x, d, bound);
        let r = insert_by_port(x, d);
        assert forall|k: int| 0 <= k < r.push(t.last()).len() implies (#[trigger] r.push(t.last())[k]).port <= bound by {
            if k < r.len() {
                assert(r.push(t.last())[k] == r[k]);
            }
        }
    } else if t.len() > 0 {
        assert forall|k: int| 0 <= k < t.push(x).len() implies (#[trigger] t.push(x)[k]).port <= bound by {
            if k < t.len() {
                assert(t.push(x)[k] == t[k]);
            }
        }
    }
}

/// Sorting the results of a host by port, as the summary does, leaves them
/// sorted by port, and for each port keeps exactly the results with that
/// port, in their order: nothing is lost, added, or reordered among equal
/// ports.
pub proof fn lemma_sort_by_port_is_stable_sort(s: Seq<ScanResult>)
    ensures
        port_sorted(sort_by_port(s)),
        sort_by_port(s).len() == s.len(),
        forall|p: u16| #[trigger] with_port(sort_by_port(s), p) == with_port(s, p),
    decreases s.len(),
{
    if s.len() > 0 {
        lemma_sort_by_port_is_stable_sort(s.drop_last());
        let t = sort_by_port(s.drop_last());
        assert forall|p: u16| #[trigger] with_port(sort_by_port(s), p) == with_port(s, p) by {
            lemma_insert_by_port(s.last(), t, p);
        }
        lemma_insert_by_port(s.last(), t, 0);
    } else {
        assert forall|p: u16| #[trigger] with_port(sort_by_port(s), p) == with_port(s, p) by {}
    }
}

} // verus!

verus! {

/// The summary lists, under the first occurrence of a live host that has
/// results, exactly that host's results: sorted by port, and for each port
/// the host's results with that port in the order in which they came.
pub proof fn lemma_summary_lists_host_results(live: Seq<IpAddress>, results: Seq<ScanResult>, k: int)
    requires
        0 <= k < live.len(),
        !live.take(k).contains(live[k]),
        results_for(results, live[k]).len() > 0,
    ensures
        report_for(live, results, k) matches Some(s) && port_sorted(s) && forall|p: u16|
            #[trigger] with_port(s, p) == with_port(results_for(results, live[k]), p),
{
    lemma_sort_by_port_is_stable_sort(results_for(results, live[k]));
}

} // verus!

verus! {

broadcast use vstd::seq_lib::group_to_multiset_ensures;

proof fn lemma_results_for_count(results: Seq<ScanResult>, ip: IpAddress, r: ScanResult)
    ensures
        results_for(results, ip).to_multiset().count(r) == if r.ip == ip {
            results.to_multiset().count(r)
        } else {
            0
        },
    decreases results.len(),
{
    if results.len() == 0 {
        assert(results_for(results, ip) =~= Seq::<ScanResult>::empty());
        assert(results.to_multiset().len() == 0);
        assert(results_for(results, ip).to_multiset().len() == 0);
    } else {
        lemma_results_for_count(results.drop_last(), ip, r);
        assert(results.drop_last().push(results.last()) =~= results);
    }
}

proof fn lemma_insert_by_port_count(x: ScanResult, t: Seq<ScanResult>)
    ensures
        insert_by_port(x, t).to_multiset() =~= t.to_multiset().insert(x),
    decreases t.len(),
{
    if t.len() == 0 {
        assert(seq![x] =~= t.push(x));
    } else if t.last().port > x.port {
        lemma_insert_by_port_count(x, t.drop_last());
        assert(t.drop_last().push(t.last()) =~= t);
    }
}

proof fn lemma_sort_by_port_count(s: Seq<ScanResult>)
    ensures
        sort_by_port(s).to_multiset() =~= s.to_multiset(),
    decreases s.len(),
{
    if s.len() > 0 {
        lemma_sort_by_port_count(s.drop_last());
        lemma_insert_by_port_count(s.last(), sort_by_port(s.drop_last()));
        assert(s.drop_last().push(s.last()) =~= s);
    } else {
        assert(sort_by_port(s).to_multiset().len() == 0);
        assert(s.to_multiset().len() == 0);
    }
}

/// Under the first occurrence of a live host, the summary lists every
/// result about that host, each as many times as it occurs among the
/// results, and nothing else; a host with no result has no list.
pub proof fn lemma_summary_lists_every_result(live: Seq<IpAddress>, results: Seq<ScanResult>, k: int)
    requires
        0 <= k < live.len(),
        !live.take(k).contains(live[k]),
    ensures
        forall|r: ScanResult| #[trigger] results.contains(r) && r.ip == live[k] ==> (
            report_for(live, results, k) matches Some(v) && v.contains(r)),
        report_for(live, results, k) matches Some(v) ==> forall|r: ScanResult| #[trigger] v.to_multiset().count(r)
            == if r.ip == live[k] { results.to_multiset().count(r) } else { 0 },
        (forall|r: ScanResult| #[trigger] results.contains(r) ==> r.ip != live[k]) ==> report_for(live, results, k) is None,
{
    let ip = live[k];
    let mine = results_for(results, ip);
    lemma_sort_by_port_count(mine);
    assert forall|r: ScanResult| #[trigger] results.contains(r) && r.ip == ip implies (
        report_for(live, results, k) matches Some(v) && v.contains(r)) by {
        lemma_results_for_count(results, ip, r);
        assert(mine.to_multiset().count(r) > 0);
        assert(mine.len() > 0);
        assert(sort_by_port(mine).to_multiset().count(r) > 0);
    }
    if report_for(live, results, k) is Some {
        assert forall|r: ScanResult| #[trigger] sort_by_port(mine).to_multiset().count(r) == if r.ip == ip {
            results.to_multiset().count(r)
        } else {
            0
        } by {
            lemma_results_for_count(results, ip, r);
        }
    }
    if forall|r: ScanResult| #[trigger] results.contains(r) ==> r.ip != ip {
        if mine.len() > 0 {
            let r = mine[0];
            assert(mine.contains(r));
            lemma_results_for_count(results, ip, r);
            assert(mine.to_multiset().count(r) > 0);
            if r.ip == ip {
                assert(results.to_multiset().count(r) > 0);
                assert(results.contains(r));
            }
        }
    }
}

} // verus!
