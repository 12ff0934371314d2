use vstd::prelude::*;
use crate::models::IpAddress;
use crate::address_set::{add_address, holds, keys_valid, new_address_set, set_addresses};
use std::collections::BTreeSet;
use crate::text::{comma_list_items, lemma_list_items_joined, list_items, string_from_chars, views};

verus! {

/// What `<ipnet::IpNet as FromStr>::from_str` gives for a text: the
/// address family (`true` for IPv6), the address bits and the prefix length
/// of the network, or `None` where the text is not a network in CIDR form.
pub uninterp spec fn ipnet_parse(s: Seq<char>) -> Option<(bool, u128, u8)>;

/// Calls `<ipnet::IpNet as FromStr>::from_str` on `s` and takes the network
/// apart into its family, its address (as written, not masked) and its
/// prefix length. The contract names the result, and claims what ipnet's
/// parser guarantees: an IPv4 prefix is at most 32 and an IPv6 prefix at
/// most 128 (it reads at most 2 or 3 digits below 33 or 129), and an IPv4
/// address fits in 32 bits.
#[verifier::external_body]
fn ipnet_from_str(s: &str) -> (res: Option<(bool, u128, u8)>)
    ensures
        res == ipnet_parse(s@),
        res matches Some((v6, bits, len)) ==> if v6 {
            len <= 128
        } else {
            bits <= 0xFFFF_FFFF && len <= 32
        },
{
    match s.parse::<ipnet::IpNet>() {
        Ok(ipnet::IpNet::V4(n)) => Some((false, u32::from(n.addr()) as u128, n.prefix_len())),
        Ok(ipnet::IpNet::V6(n)) => Some((true, u128::from(n.addr()), n.prefix_len())),
        Err(_) => None,
    }
}

/// A network in CIDR form: an address as written and a prefix length.
#[derive(Clone, Copy, Debug, PartialEq, Eq, Structural)]
pub struct IpNetwork {
    pub addr: IpAddress,
    pub prefix_len: u8,
}

impl IpNetwork {
    /// The prefix length fits the address family.
    pub open spec fn wf(self) -> bool {
        match self.addr {
            IpAddress::V4(_) => self.prefix_len <= 32,
            IpAddress::V6(_) => self.prefix_len <= 128,
        }
    }
}

/// The network that ipnet's parts stand for.
pub open spec fn network_from_parts(parts: (bool, u128, u8)) -> IpNetwork {
    if parts.0 {
        IpNetwork { addr: IpAddress::V6(parts.1), prefix_len: parts.2 }
    } else {
        IpNetwork { addr: IpAddress::V4(parts.1 as u32), prefix_len: parts.2 }
    }
}

/// The network that `s` spells in CIDR form, if it spells one.
pub open spec fn network_of(s: Seq<char>) -> Option<IpNetwork> {
    match ipnet_parse(s) {
        Some(parts) => Some(network_from_parts(parts)),
        None => None,
    }
}

/// The network that `item` spells in CIDR form (such as `10.0.0.0/24` or
/// `fd00::/64`), if it spells one.
pub fn parse_network(item: &str) -> (res: Option<IpNetwork>)
    ensures
        res == network_of(item@),
        res matches Some(net) ==> net.wf(),
{
    match ipnet_from_str(item) {
        Some((v6, bits, len)) => {
            if v6 {
                Some(IpNetwork { addr: IpAddress::V6(bits), prefix_len: len })
            } else {
                Some(IpNetwork { addr: IpAddress::V4(bits as u32), prefix_len: len })
            }
        },
        None => None,
    }
}

/// The bits of an address, as an integer.
pub open spec fn address_bits(a: IpAddress) -> int {
    match a {
        IpAddress::V4(x) => x as int,
        IpAddress::V6(x) => x as int,
    }
}

pub open spec fn same_family(a: IpAddress, b: IpAddress) -> bool {
    (a is V4) == (b is V4)
}

pub open spec fn v4_netmask(p: u8) -> u32 {
    if p == 0 {
        0
    } else {
        0xFFFF_FFFFu32 << ((32 - p) as u32)
    }
}

pub open spec fn v4_hostmask(p: u8) -> u32 {
    if p >= 32 {
        0
    } else {
        0xFFFF_FFFFu32 >> (p as u32)
    }
}

pub open spec fn v6_netmask(p: u8) -> u128 {
    if p == 0 {
        0
    } else {
        0xFFFF_FFFF_FFFF_FFFF_FFFF_FFFF_FFFF_FFFFu128 << ((128 - p) as u32)
    }
}

pub open spec fn v6_hostmask(p: u8) -> u128 {
    if p >= 128 {
        0
    } else {
        0xFFFF_FFFF_FFFF_FFFF_FFFF_FFFF_FFFF_FFFFu128 >> (p as u32)
    }
}

/// The first and last host of a network, as `IpNet::hosts` bounds them:
/// from the network address (the address with the host bits cleared) to the
/// broadcast address (the host bits set); for IPv4 below a prefix of 31 both
/// ends are moved one step inwards.
pub open spec fn host_range(net: IpNetwork) -> (int, int) {
    let p = net.prefix_len;
    match net.addr {
        IpAddress::V4(a) => {
            let lo = a & v4_netmask(p);
            let hi = a | v4_hostmask(p);
            if p < 31 {
                (
                    if lo == 0xFFFF_FFFFu32 { lo as int } else { lo + 1 },
                    if hi == 0 { hi as int } else { hi - 1 },
                )
            } else {
                (lo as int, hi as int)
            }
        },
        IpAddress::V6(a) => ((a & v6_netmask(p)) as int, (a | v6_hostmask(p)) as int),
    }
}

/// Whether a network stands for its own address alone: a prefix of 32 (of
/// either family) or an IPv6 prefix of 128.
pub open spec fn single_address(net: IpNetwork) -> bool {
    net.prefix_len == 32 || (net.addr is V6 && net.prefix_len == 128)
}

/// Whether scanning the network `net` scans the address `a`: its own address
/// where it stands for a single address or has no hosts, else each of its
/// hosts.
pub open spec fn network_includes(net: IpNetwork, a: IpAddress) -> bool {
    if single_address(net) {
        a == net.addr
    } else {
        let (lo, hi) = host_range(net);
        if lo > hi {
            a == net.addr
        } else {
            same_family(a, net.addr) && lo <= address_bits(a) <= hi
        }
    }
}

/// The bounds of the hosts of `net`, as `host_range` gives them.
pub fn host_bounds(net: &IpNetwork) -> (res: (u128, u128))
    requires
        net.wf(),
    ensures
        res.0 as int == host_range(*net).0,
        res.1 as int == host_range(*net).1,
        net.addr is V4 ==> res.1 <= 0xFFFF_FFFF,
{
    let p = net.prefix_len;
    match net.addr {
        IpAddress::V4(a) => {
            let netmask: u32 = if p == 0 { 0 } else { 0xFFFF_FFFFu32 << (32 - p as u32) };
            let hostmask: u32 = if p >= 32 { 0 } else { 0xFFFF_FFFFu32 >> (p as u32) };
            let lo = a & netmask;
            let hi = a | hostmask;
            if p < 31 {
                (lo.saturating_add(1) as u128, hi.saturating_sub(1) as u128)
            } else {
                (lo as u128, hi as u128)
            }
        },
        IpAddress::V6(a) => {
            let netmask: u128 = if p == 0 {
                0
            } else {
                0xFFFF_FFFF_FFFF_FFFF_FFFF_FFFF_FFFF_FFFFu128 << (128 - p as u32)
            };
            let hostmask: u128 = if p >= 128 {
                0
            } else {
                0xFFFF_FFFF_FFFF_FFFF_FFFF_FFFF_FFFF_FFFFu128 >> (p as u32)
            };
            (a & netmask, a | hostmask)
        },
    }
}

/// Addresses in strictly increasing order: sorted, and none occurs twice.
pub open spec fn ascending(s: Seq<IpAddress>) -> bool {
    forall|i: int, j: int| 0 <= i < j < s.len() ==> s[i].rank() < s[j].rank()
}

proof fn lemma_rank_injective(a: IpAddress, b: IpAddress)
    ensures
        a.rank() == b.rank() ==> a == b,
{
}

/// Adds to `set` every address that scanning `net` scans.
fn add_network(set: &mut BTreeSet<(u8, u128)>, net: &IpNetwork)
    requires
        keys_valid(old(set)@),
        net.wf(),
    ensures
        keys_valid(final(set)@),
        forall|x: IpAddress| #![trigger holds(final(set)@, x)] holds(final(set)@, x) <==> (holds(old(set)@, x) || network_includes(*net, x)),
{
    let is_v6 = match net.addr {
        IpAddress::V4(_) => false,
        IpAddress::V6(_) => true,
    };
    if net.prefix_len == 32 || (is_v6 && net.prefix_len == 128) {
        add_address(set, net.addr);
        return;
    }
    let (lo, hi) = host_bounds(net);
    if lo > hi {
        add_address(set, net.addr);
        return;
    }
    let ghost start = set@;
    assert(!single_address(*net));
    let mut cur: u128 = lo;
    let mut done = false;
    while !done
        invariant
            lo <= cur <= hi,
            keys_valid(set@),
            is_v6 == (net.addr is V6),
            net.addr is V4 ==> hi <= 0xFFFF_FFFF,
            !done ==> forall|x: IpAddress| #![trigger holds(set@, x)] holds(set@, x) <==> (holds(start, x) || (same_family(x, net.addr) && lo <= address_bits(x) < cur)),
            done ==> forall|x: IpAddress| #![trigger holds(set@, x)] holds(set@, x) <==> (holds(start, x) || (same_family(x, net.addr) && lo <= address_bits(x) <= hi)),
        decreases hi - cur, if done { 0int } else { 1int },
    {
        let a = if is_v6 { IpAddress::V6(cur) } else { IpAddress::V4(cur as u32) };
        assert(same_family(a, net.addr) && address_bits(a) == cur);
        let ghost before = set@;
        add_address(set, a);
        assert forall|x: IpAddress| #![trigger holds(set@, x)] holds(set@, x) <==> (holds(start, x) || (same_family(x, net.addr) && lo <= address_bits(x) < cur + 1)) by {
            assert(holds(set@, x) <==> (holds(before, x) || x == a));
            assert(holds(before, x) <==> (holds(start, x) || (same_family(x, net.addr) && lo <= address_bits(x) < cur)));
            if same_family(x, net.addr) && address_bits(x) == cur {
                lemma_rank_injective(x, a);
            }
        }
        if cur == hi {
            done = true;
        } else {
            cur = cur + 1;
        }
    }
}

/// One item of a target list: a network in CIDR form, or a name (an address
/// or a host name) whose addresses are looked up outside the library.
#[derive(Clone, Debug)]
pub enum Target {
    Network(IpNetwork),
    Name(String),
}

/// The abstract form of a `Target`.
pub enum TargetView {
    Network(IpNetwork),
    Name(Seq<char>),
}

impl View for Target {
    type V = TargetView;

    open spec fn view(&self) -> TargetView {
        match self {
            Target::Network(n) => TargetView::Network(*n),
            Target::Name(s) => TargetView::Name(s@),
        }
    }
}

pub open spec fn target_views(ts: Seq<Target>) -> Seq<TargetView> {
    ts.map_values(|t: Target| t@)
}

/// Every network among the targets has a prefix length that fits its family.
pub open spec fn targets_wf(ts: Seq<TargetView>) -> bool {
    forall|i: int| 0 <= i < ts.len() ==> (#[trigger] ts[i] matches TargetView::Network(n) ==> n.wf())
}

/// What a trimmed target item is: the network it spells in CIDR form, or
/// else a name.
pub open spec fn classify(item: Seq<char>) -> TargetView {
    match network_of(item) {
        Some(n) => TargetView::Network(n),
        None => TargetView::Name(item),
    }
}

/// The targets of a target list: its items (split at commas, trimmed, empty
/// ones skipped), each classified.
pub open spec fn target_list(s: Seq<char>) -> Seq<TargetView> {
    list_items(s).map_values(|item: Seq<char>| classify(item))
}

/// What the trimmed target item `item` is: the network it spells in CIDR
/// form, or else a name.
pub fn classify_target(item: &str) -> (res: Target)
    ensures
        res@ == classify(item@),
        res matches Target::Network(n) ==> n.wf(),
{
    match parse_network(item) {
        Some(net) => Target::Network(net),
        None => Target::Name(item.to_owned()),
    }
}

/// The targets of the comma-separated target list `targets`.
pub fn parse_target_list(targets: &str) -> (res: Vec<Target>)
    ensures
        target_views(res@) == target_list(targets@),
        targets_wf(target_views(res@)),
{
    let items = comma_list_items(targets);
    let ghost iv = views(items@);
    let n = items.len();
    let mut res: Vec<Target> = Vec::new();
    let mut i: usize = 0;
    while i < n
        invariant
            n == items@.len(),
            iv == views(items@),
            iv == list_items(targets@),
            i <= n,
            target_views(res@) == iv.take(i as int).map_values(|item: Seq<char>| classify(item)),
            targets_wf(target_views(res@)),
        decreases n - i,
    {
        let text = string_from_chars(&items[i]);
        let t = classify_target(text.as_str());
        assert(iv[i as int] == items@[i as int]@);
        let ghost old_views = target_views(res@);
        res.push(t);
        assert(target_views(res@) =~= old_views.push(t@));
        assert(iv.take(i + 1).map_values(|item: Seq<char>| classify(item)) =~= iv.take(i as int).map_values(|item: Seq<char>| classify(item)).push(classify(iv[i as int])));
        assert forall|q: int| 0 <= q < target_views(res@).len() implies (#[trigger] target_views(res@)[q] matches TargetView::Network(n) ==> n.wf()) by {
            if q < old_views.len() {
                assert(target_views(res@)[q] == old_views[q]);
            }
        }
        i = i + 1;
    }
    assert(iv.take(n as int) =~= iv);
    res
}

/// The number of names among the targets.
pub open spec fn name_count(ts: Seq<TargetView>) -> nat
    decreases ts.len(),
{
    if ts.len() == 0 {
        0
    } else {
        name_count(ts.drop_last()) + if ts.last() is Name { 1nat } else { 0nat }
    }
}

/// The names among the targets, in order.
pub open spec fn names(ts: Seq<TargetView>) -> Seq<Seq<char>>
    decreases ts.len(),
{
    if ts.len() == 0 {
        seq![]
    } else {
        match ts.last() {
            TargetView::Name(s) => names(ts.drop_last()).push(s),
            TargetView::Network(_) => names(ts.drop_last()),
        }
    }
}

/// Whether scanning the targets scans the address `a`, where the `k`-th
/// name among the targets was looked up as `lookups[k]`.
pub open spec fn targets_include(ts: Seq<TargetView>, lookups: Seq<Seq<IpAddress>>, a: IpAddress) -> bool
    decreases ts.len(),
{
    if ts.len() == 0 {
        false
    } else {
        targets_include(ts.drop_last(), lookups, a) || match ts.last() {
            TargetView::Network(n) => network_includes(n, a),
            TargetView::Name(_) => lookups[name_count(ts.drop_last()) as int].contains(a),
        }
    }
}

pub open spec fn lookup_views(l: Seq<Vec<IpAddress>>) -> Seq<Seq<IpAddress>> {
    l.map_values(|v: Vec<IpAddress>| v@)
}

/// Why a target list could not be turned into addresses.
#[derive(Clone, Copy, Debug, PartialEq, Eq, Structural)]
pub enum TargetError {
    /// The number of name lookups handed in differs from the number of names.
    LookupCount { names: usize, lookups: usize },
}

/// The names among `targets`, in order: what has to be looked up (as an
/// address, else through name resolution) before `collect_targets`.
pub fn target_names(targets: &Vec<Target>) -> (res: Vec<String>)
    ensures
        res@.map_values(|s: String| s@) == names(target_views(targets@)),
{
    let n = targets.len();
    let mut res: Vec<String> = Vec::new();
    let mut i: usize = 0;
    while i < n
        invariant
            n == targets@.len(),
            i <= n,
            res@.map_values(|s: String| s@) == names(target_views(targets@).take(i as int)),
        decreases n - i,
    {
        let ghost tv = target_views(targets@);
        assert(tv.take(i + 1).drop_last() =~= tv.take(i as int));
        match &targets[i] {
            Target::Name(s) => {
                res.push(s.clone());
                assert(res@.map_values(|s: String| s@) =~= names(tv.take(i as int)).push(s@));
            },
            Target::Network(_) => {},
        }
        i = i + 1;
    }
    assert(target_views(targets@).take(n as int) =~= target_views(targets@));
    res
}

/// The addresses that scanning `targets` scans, in increasing order and
/// without repetition: each network contributes the addresses that
/// `network_includes` gives, and the `k`-th name contributes `lookups[k]`.
pub fn collect_targets(targets: &Vec<Target>, lookups: &Vec<Vec<IpAddress>>) -> (res: Result<
    Vec<IpAddress>,
    TargetError,
>)
    requires
        targets_wf(target_views(targets@)),
    ensures
        match res {
            Err(e) => lookups@.len() != name_count(target_views(targets@)) && e == (TargetError::LookupCount {
                names: name_count(target_views(targets@)) as usize,
                lookups: lookups.len(),
            }),
            Ok(v) => lookups@.len() == name_count(target_views(targets@)) && ascending(v@) && forall|a: IpAddress|
                v@.contains(a) <==> targets_include(target_views(targets@), lookup_views(lookups@), a),
        },
{
    let ghost tv = target_views(targets@);
    let ghost lv = lookup_views(lookups@);
    let n = targets.len();
    let mut count: usize = 0;
    let mut i: usize = 0;
    while i < n
        invariant
            n == targets@.len(),
            tv == target_views(targets@),
            i <= n,
            count == name_count(tv.take(i as int)),
            count <= i,
        decreases n - i,
    {
        assert(tv.take(i + 1).drop_last() =~= tv.take(i as int));
        match &targets[i] {
            Target::Name(_) => {
                count = count + 1;
            },
            Target::Network(_) => {},
        }
        i = i + 1;
    }
    assert(tv.take(n as int) =~= tv);
    if count != lookups.len() {
        return Err(TargetError::LookupCount { names: count, lookups: lookups.len() });
    }
    let mut set = new_address_set();
    let mut k: usize = 0;
    let nl = lookups.len();
    i = 0;
    while i < n
        invariant
            n == targets@.len(),
            nl == lookups@.len(),
            tv == target_views(targets@),
            lv == lookup_views(lookups@),
            targets_wf(tv),
            lookups@.len() == name_count(tv),
            i <= n,
            k == name_count(tv.take(i as int)),
            k <= lookups@.len(),
            keys_valid(set@),
            forall|a: IpAddress| #![trigger holds(set@, a)] holds(set@, a) <==> targets_include(tv.take(i as int), lv, a),
        decreases n - i,
    {
        assert(tv.take(i + 1).drop_last() =~= tv.take(i as int));
        assert(tv[i as int] == targets@[i as int]@);
        proof {
            lemma_name_count_prefix(tv, i as int + 1);
        }
        let ghost pre = tv.take(i as int);
        let ghost post = tv.take(i + 1);
        assert(post.drop_last() =~= pre);
        assert(post.last() == tv[i as int]);
        let ghost old_set = set@;
        match &targets[i] {
            Target::Network(net) => {
                assert(tv[i as int] matches TargetView::Network(m) && m == *net);
                add_network(&mut set, net);
                assert forall|a: IpAddress| #![trigger holds(set@, a)] holds(set@, a) <==> targets_include(post, lv, a) by {
                    assert(holds(set@, a) <==> (holds(old_set, a) || network_includes(*net, a)));
                    assert(holds(old_set, a) <==> targets_include(pre, lv, a));
                    assert(targets_include(post, lv, a) == (targets_include(pre, lv, a) || network_includes(*net, a)));
                }
            },
            Target::Name(_) => {
                assert(name_count(post) == k + 1);
                let found = &lookups[k];
                let m = found.len();
                let mut j: usize = 0;
                let ghost before = set@;
                while j < m
                    invariant
                        m == found@.len(),
                        j <= m,
                        keys_valid(set@),
                        forall|a: IpAddress| #![trigger holds(set@, a)] holds(set@, a) <==> (holds(before, a) || found@.take(j as int).contains(a)),
                    decreases m - j,
                {
                    let ghost set0 = set@;
                    add_address(&mut set, found[j]);
                    let ghost t0 = found@.take(j as int);
                    let ghost t1 = found@.take(j + 1);
                    assert(t1 =~= t0.push(found@[j as int]));
                    assert forall|a: IpAddress| t1.contains(a) <==> (t0.contains(a) || a == found@[j as int]) by {
                        if t1.contains(a) {
                            let q = choose|q: int| 0 <= q < t1.len() && #[trigger] t1[q] == a;
                            if q < j {
                                assert(t0[q] == a);
                            }
                        }
                        if t0.contains(a) {
                            let q = choose|q: int| 0 <= q < t0.len() && #[trigger] t0[q] == a;
                            assert(t1[q] == a);
                        }
                        assert(t1[j as int] == found@[j as int]);
                    }
                    assert forall|a: IpAddress| holds(set@, a) <==> (holds(before, a) || t1.contains(a)) by {
                        assert(holds(set@, a) <==> (holds(set0, a) || a == found@[j as int]));
                        assert(holds(set0, a) <==> (holds(before, a) || t0.contains(a)));
                    }
                    j = j + 1;
                }
                assert(found@.take(m as int) =~= found@);
                assert(lv[k as int] == found@);
                assert forall|a: IpAddress| holds(set@, a) <==> targets_include(post, lv, a) by {
                    assert(targets_include(post, lv, a) == (targets_include(pre, lv, a) || lv[k as int].contains(a)));
                }
                k = k + 1;
            },
        }
        i = i + 1;
    }
    assert(tv.take(n as int) =~= tv);
    let v = set_addresses(&set);
    assert forall|a: IpAddress| v@.contains(a) <==> targets_include(tv, lv, a) by {
        assert(holds(set@, a) <==> targets_include(tv, lv, a));
    }
    Ok(v)
}

proof fn lemma_name_count_prefix(ts: Seq<TargetView>, i: int)
    requires
        0 <= i <= ts.len(),
    ensures
        name_count(ts.take(i)) <= name_count(ts),
    decreases ts.len() - i,
{
    if i < ts.len() {
        assert(ts.drop_last().take(i) =~= ts.take(i));
        lemma_name_count_prefix(ts.drop_last(), i);
    } else {
        assert(ts.take(i) =~= ts);
    }
}

/// The addresses that scanning the comma-separated target list `targets`
/// scans, in increasing order and without repetition, where the `k`-th name
/// in the list (an item that is not a network in CIDR form) was looked up as
/// `lookups[k]`.
pub fn parse_targets(targets: &str, lookups: &Vec<Vec<IpAddress>>) -> (res: Result<
    Vec<IpAddress>,
    TargetError,
>)
    ensures
        match res {
            Err(e) => lookups@.len() != name_count(target_list(targets@)) && e == (TargetError::LookupCount {
                names: name_count(target_list(targets@)) as usize,
                lookups: lookups.len(),
            }),
            Ok(v) => lookups@.len() == name_count(target_list(targets@)) && ascending(v@) && forall|a: IpAddress|
                v@.contains(a) <==> targets_include(target_list(targets@), lookup_views(lookups@), a),
        },
{
    let list = parse_target_list(targets);
    collect_targets(&list, lookups)
}

} // verus!

verus! {

/// The addresses of `ips` that are not in `excluded`, in their order.
pub open spec fn without_excluded(ips: Seq<IpAddress>, excluded: Seq<IpAddress>) -> Seq<IpAddress>
    decreases ips.len(),
{
    if ips.len() == 0 {
        seq![]
    } else if excluded.contains(ips.last()) {
        without_excluded(ips.drop_last(), excluded)
    } else {
        without_excluded(ips.drop_last(), excluded).push(ips.last())
    }
}

/// Whether `a` occurs in `list`.
pub fn address_listed(list: &Vec<IpAddress>, a: &IpAddress) -> (res: bool)
    ensures
        res == list@.contains(*a),
{
    let n = list.len();
    let mut i: usize = 0;
    while i < n
        invariant
            n == list@.len(),
            i <= n,
            forall|k: int| 0 <= k < i ==> list@[k] != *a,
        decreases n - i,
    {
        if list[i] == *a {
            return true;
        }
        i = i + 1;
    }
    false
}

/// The addresses of `ips` that are not in `excluded`, in their order.
pub fn exclude_targets(ips: &Vec<IpAddress>, excluded: &Vec<IpAddress>) -> (res: Vec<IpAddress>)
    ensures
        res@ == without_excluded(ips@, excluded@),
{
    let n = ips.len();
    let mut res: Vec<IpAddress> = Vec::new();
    let mut i: usize = 0;
    while i < n
        invariant
            n == ips@.len(),
            i <= n,
            res@ == without_excluded(ips@.take(i as int), excluded@),
        decreases n - i,
    {
        assert(ips@.take(i + 1).drop_last() =~= ips@.take(i as int));
        if !address_listed(excluded, &ips[i]) {
            res.push(ips[i]);
        }
        i = i + 1;
    }
    assert(ips@.take(n as int) =~= ips@);
    res
}

} // verus!

verus! {

/// Exclusion keeps exactly the listed addresses that are not excluded: an
/// excluded address is never scanned, and every other target still is.
pub proof fn lemma_exclusion_keeps_exactly_the_rest(ips: Seq<IpAddress>, excluded: Seq<IpAddress>, a: IpAddress)
    ensures
        without_excluded(ips, excluded).contains(a) <==> (ips.contains(a) && !excluded.contains(a)),
    decreases ips.len(),
{
    if ips.len() > 0 {
        lemma_exclusion_keeps_exactly_the_rest(ips.drop_last(), excluded, a);
        let r = without_excluded(ips.drop_last(), excluded);
        if r.push(ips.last()).contains(a) {
            let k = choose|k: int| 0 <= k < r.push(ips.last()).len() && r.push(ips.last())[k] == a;
            if k < r.len() {
                assert(r[k] == a);
            }
        }
        if r.contains(a) {
            let k = choose|k: int| 0 <= k < r.len() && r[k] == a;
            assert(r.push(ips.last())[k] == a);
        }
        assert(r.push(ips.last())[r.len() as int] == ips.last());
        if ips.contains(a) {
            let k = choose|k: int| 0 <= k < ips.len() && ips[k] == a;
            if k < ips.len() - 1 {
                assert(ips.drop_last()[k] == a);
            }
        }
        if ips.drop_last().contains(a) {
            let k = choose|k: int| 0 <= k < ips.drop_last().len() && ips.drop_last()[k] == a;
            assert(ips[k] == a);
        }
    }
}

} // verus!

verus! {

/// The ascending, repetition-free address list that `parse_targets` returns
/// depends only on the set of addresses the targets stand for: two target
/// lists standing for the same addresses (in any order, overlapping or
/// repeated) give the same list.
pub proof fn lemma_same_addresses_same_list(v1: Seq<IpAddress>, v2: Seq<IpAddress>)
    requires
        ascending(v1),
        ascending(v2),
        forall|a: IpAddress| v1.contains(a) <==> v2.contains(a),
    ensures
        v1 == v2,
    decreases v1.len() + v2.len(),
{
    if v1.len() == 0 {
        if v2.len() > 0 {
            assert(v2.contains(v2[0]));
        }
        assert(v1 =~= v2);
    } else if v2.len() == 0 {
        assert(v1.contains(v1[0]));
    } else {
        assert(v1.contains(v1[0]));
        assert(v2.contains(v2[0]));
        let k1 = choose|k: int| 0 <= k < v2.len() && v2[k] == v1[0];
        let k2 = choose|k: int| 0 <= k < v1.len() && v1[k] == v2[0];
        if k1 > 0 {
            assert(v2[0].rank() < v2[k1].rank());
        }
        if k2 > 0 {
            assert(v1[0].rank() < v1[k2].rank());
        }
        lemma_rank_injective(v1[0], v2[0]);
        let r1 = v1.drop_first();
        let r2 = v2.drop_first();
        assert forall|a: IpAddress| r1.contains(a) <==> r2.contains(a) by {
            if r1.contains(a) {
                let k = choose|k: int| 0 <= k < r1.len() && r1[k] == a;
                assert(v1[k + 1] == a);
                assert(v2.contains(a));
                let j = choose|j: int| 0 <= j < v2.len() && v2[j] == a;
                if j == 0 {
                    assert(v1[0].rank() < v1[k + 1].rank());
                }
                assert(r2[j - 1] == a);
            }
            if r2.contains(a) {
                let k = choose|k: int| 0 <= k < r2.len() && r2[k] == a;
                assert(v2[k + 1] == a);
                assert(v1.contains(a));
                let j = choose|j: int| 0 <= j < v1.len() && v1[j] == a;
                if j == 0 {
                    assert(v2[0].rank() < v2[k + 1].rank());
                }
                assert(r1[j - 1] == a);
            }
        }
        lemma_same_addresses_same_list(r1, r2);
        assert(v1 =~= seq![v1[0]] + r1);
        assert(v2 =~= seq![v2[0]] + r2);
    }
}

} // verus!

verus! {

proof fn lemma_name_count_concat(ta: Seq<TargetView>, tb: Seq<TargetView>)
    ensures
        name_count(ta + tb) == name_count(ta) + name_count(tb),
    decreases tb.len(),
{
    if tb.len() == 0 {
        assert(ta + tb =~= ta);
    } else {
        lemma_name_count_concat(ta, tb.drop_last());
        assert((ta + tb).drop_last() =~= ta + tb.drop_last());
        assert((ta + tb).last() == tb.last());
    }
}

proof fn lemma_include_lookups_agree(t: Seq<TargetView>, l1: Seq<Seq<IpAddress>>, l2: Seq<Seq<IpAddress>>, x: IpAddress)
    requires
        forall|i: int| 0 <= i < name_count(t) ==> l1[i] == l2[i],
    ensures
        targets_include(t, l1, x) == targets_include(t, l2, x),
    decreases t.len(),
{
    if t.len() > 0 {
        lemma_include_lookups_agree(t.drop_last(), l1, l2, x);
    }
}

proof fn lemma_include_concat(
    ta: Seq<TargetView>,
    tb: Seq<TargetView>,
    la: Seq<Seq<IpAddress>>,
    lb: Seq<Seq<IpAddress>>,
    x: IpAddress,
)
    requires
        la.len() == name_count(ta),
        lb.len() == name_count(tb),
    ensures
        targets_include(ta + tb, la + lb, x) <==> (targets_include(ta, la, x) || targets_include(tb, lb, x)),
    decreases tb.len(),
{
    if tb.len() == 0 {
        assert(ta + tb =~= ta);
        lemma_include_lookups_agree(ta, la + lb, la, x);
    } else {
        let u = tb.drop_last();
        assert((ta + tb).drop_last() =~= ta + u);
        assert((ta + tb).last() == tb.last());
        lemma_name_count_concat(ta, u);
        if tb.last() is Name {
            assert(name_count(u) < lb.len());
            assert((la + lb)[name_count(ta + u) as int] == lb[name_count(u) as int]);
            lemma_include_lookups_agree(u, lb, lb.drop_last(), x);
            lemma_include_concat(ta, u, la, lb.drop_last(), x);
            lemma_include_lookups_agree(ta + u, la + lb, la + lb.drop_last(), x);
        } else {
            lemma_include_concat(ta, u, la, lb, x);
        }
    }
}

/// The targets of two target lists joined by a comma are the targets of the
/// first followed by those of the second.
proof fn lemma_target_list_joined(a: Seq<char>, b: Seq<char>)
    ensures
        target_list(a + seq![','] + b) == target_list(a) + target_list(b),
{
    lemma_list_items_joined(a, b);
    assert(target_list(a + seq![','] + b) =~= target_list(a) + target_list(b));
}

/// Two target lists joined by a comma, in either order, stand for the union
/// of their addresses, where each list's names are looked up as they are
/// alone (`la` for the names of `a`, `lb` for those of `b`): the names of the
/// joined list are those of `a` then those of `b` (or the other way round),
/// an address is included exactly when one of the lists includes it, and
/// the ascending lists that `parse_targets` gives for `a,b` and for `b,a`
/// are the same list.
pub proof fn lemma_joined_target_lists(
    a: Seq<char>,
    b: Seq<char>,
    la: Seq<Seq<IpAddress>>,
    lb: Seq<Seq<IpAddress>>,
    z1: Seq<IpAddress>,
    z2: Seq<IpAddress>,
)
    requires
        la.len() == name_count(target_list(a)),
        lb.len() == name_count(target_list(b)),
    ensures
        target_list(a + seq![','] + b) == target_list(a) + target_list(b),
        names(target_list(a + seq![','] + b)) == names(target_list(a)) + names(target_list(b)),
        name_count(target_list(a + seq![','] + b)) == la.len() + lb.len(),
        name_count(target_list(b + seq![','] + a)) == lb.len() + la.len(),
        forall|x: IpAddress| #[trigger] targets_include(target_list(a + seq![','] + b), la + lb, x) <==> (
            targets_include(target_list(a), la, x) || targets_include(target_list(b), lb, x)),
        forall|x: IpAddress| #[trigger] targets_include(target_list(b + seq![','] + a), lb + la, x) <==> (
            targets_include(target_list(a), la, x) || targets_include(target_list(b), lb, x)),
        ascending(z1) && ascending(z2) && (forall|x: IpAddress| #[trigger] z1.contains(x) <==> targets_include(
            target_list(a + seq![','] + b),
            la + lb,
            x,
        )) && (forall|x: IpAddress| #[trigger] z2.contains(x) <==> targets_include(
            target_list(b + seq![','] + a),
            lb + la,
            x,
        )) ==> z1 == z2,
{
    let ta = target_list(a);
    let tb = target_list(b);
    lemma_target_list_joined(a, b);
    lemma_target_list_joined(b, a);
    lemma_name_count_concat(ta, tb);
    lemma_name_count_concat(tb, ta);
    lemma_names_concat(ta, tb);
    assert forall|x: IpAddress| #[trigger] targets_include(target_list(a + seq![','] + b), la + lb, x) <==> (
        targets_include(ta, la, x) || targets_include(tb, lb, x)) by {
        lemma_include_concat(ta, tb, la, lb, x);
    }
    assert forall|x: IpAddress| #[trigger] targets_include(target_list(b + seq![','] + a), lb + la, x) <==> (
        targets_include(ta, la, x) || targets_include(tb, lb, x)) by {
        lemma_include_concat(tb, ta, lb, la, x);
    }
    if ascending(z1) && ascending(z2) && (forall|x: IpAddress| #[trigger] z1.contains(x) <==> targets_include(
        target_list(a + seq![','] + b),
        la + lb,
        x,
    )) && (forall|x: IpAddress| #[trigger] z2.contains(x) <==> targets_include(
        target_list(b + seq![','] + a),
        lb + la,
        x,
    )) {
        assert forall|x: IpAddress| z1.contains(x) <==> z2.contains(x) by {
            assert(z1.contains(x) <==> targets_include(target_list(a + seq![','] + b), la + lb, x));
            assert(z2.contains(x) <==> targets_include(target_list(b + seq![','] + a), lb + la, x));
        }
        lemma_same_addresses_same_list(z1, z2);
    }
}

proof fn lemma_names_concat(ta: Seq<TargetView>, tb: Seq<TargetView>)
    ensures
        names(ta + tb) == names(ta) + names(tb),
    decreases tb.len(),
{
    if tb.len() == 0 {
        assert(ta + tb =~= ta);
        assert(names(ta) + names(tb) =~= names(ta));
    } else {
        lemma_names_concat(ta, tb.drop_last());
        assert((ta + tb).drop_last() =~= ta + tb.drop_last());
        assert((ta + tb).last() == tb.last());
        if let TargetView::Name(s) = tb.last() {
            assert((names(ta) + names(tb.drop_last())).push(s) =~= names(ta) + names(tb.drop_last()).push(s));
        }
    }
}

} // verus!

verus! {

/// An IPv4 network with a prefix below 31 stands for exactly its hosts: the
/// addresses that share its first `p` bits, except the one whose remaining
/// bits are all zero (the network address) and the one whose remaining bits
/// are all one (the broadcast address), whichever address of the network
/// was written.
pub proof fn lemma_ipv4_network_scans_its_hosts(a: u32, p: u8, b: u32)
    requires
        p < 31,
    ensures
        network_includes(IpNetwork { addr: IpAddress::V4(a), prefix_len: p }, IpAddress::V4(b)) <==> (
            (p == 0 || (b >> ((32 - p) as u32)) == (a >> ((32 - p) as u32)))
            && (b << (p as u32)) != 0u32
            && (b << (p as u32)) != (0xFFFF_FFFFu32 << (p as u32))),
        forall|y: u128| !network_includes(IpNetwork { addr: IpAddress::V4(a), prefix_len: p }, IpAddress::V6(y)),
{
    let net = IpNetwork { addr: IpAddress::V4(a), prefix_len: p };
    let pp: u32 = p as u32;
    if p == 0 {
        assert(v4_netmask(p) == 0u32);
        assert(v4_hostmask(p) == 0xFFFF_FFFFu32 >> 0u32);
        assert(0xFFFF_FFFFu32 >> 0u32 == 0xFFFF_FFFFu32) by (bit_vector);
        assert((a & 0u32) == 0u32 && (a | 0xFFFF_FFFFu32) == 0xFFFF_FFFFu32) by (bit_vector);
        assert((b << 0u32) == b && (0xFFFF_FFFFu32 << 0u32) == 0xFFFF_FFFFu32) by (bit_vector);
        assert(host_range(net) == (1int, 0xFFFF_FFFEint));
    } else {
        let s: u32 = (32 - p) as u32;
        assert(v4_netmask(p) == 0xFFFF_FFFFu32 << s);
        assert(v4_hostmask(p) == 0xFFFF_FFFFu32 >> pp);
        assert((a & (0xFFFF_FFFFu32 << s)) != 0xFFFF_FFFFu32 && (a | (0xFFFF_FFFFu32 >> pp)) != 0u32
            && (a & (0xFFFF_FFFFu32 << s)) + 2 < (a | (0xFFFF_FFFFu32 >> pp))
            && (((a & (0xFFFF_FFFFu32 << s)) < b && b < (a | (0xFFFF_FFFFu32 >> pp))) <==> (
                (b >> s) == (a >> s) && (b << pp) != 0u32 && (b << pp) != (0xFFFF_FFFFu32 << pp)))) by (bit_vector)
            requires
                1 <= pp <= 30,
                s == 32 - pp,
        ;
        let lo = a & (0xFFFF_FFFFu32 << s);
        let hi = a | (0xFFFF_FFFFu32 >> pp);
        assert(host_range(net) == ((lo + 1) as int, (hi - 1) as int));
    }
    assert(!single_address(net));
}

/// An IPv4 network with a prefix of 31 stands for both of its addresses, and
/// one with a prefix of 32 for its own address alone.
pub proof fn lemma_ipv4_short_networks(a: u32, b: u32)
    ensures
        network_includes(IpNetwork { addr: IpAddress::V4(a), prefix_len: 31 }, IpAddress::V4(b)) <==> (b >> 1u32) == (a >> 1u32),
        network_includes(IpNetwork { addr: IpAddress::V4(a), prefix_len: 32 }, IpAddress::V4(b)) <==> b == a,
{
    assert(v4_netmask(31) == 0xFFFF_FFFFu32 << 1u32);
    assert(v4_hostmask(31) == 0xFFFF_FFFFu32 >> 31u32);
    assert(((a & (0xFFFF_FFFFu32 << 1u32)) <= (a | (0xFFFF_FFFFu32 >> 31u32))) && (((a & (0xFFFF_FFFFu32 << 1u32)) <= b
        && b <= (a | (0xFFFF_FFFFu32 >> 31u32))) <==> (b >> 1u32) == (a >> 1u32))) by (bit_vector);
}

/// An IPv6 network (other than one with a prefix of 32 or 128) stands for
/// every address that shares its first `p` bits, whichever address of the
/// network was written; with a prefix of 32 or 128 it stands for its own
/// address alone.
pub proof fn lemma_ipv6_network_scans_its_addresses(a: u128, p: u8, b: u128)
    requires
        p <= 128,
    ensures
        p != 32 && p != 128 ==> (network_includes(IpNetwork { addr: IpAddress::V6(a), prefix_len: p }, IpAddress::V6(b)) <==> (
            p == 0 || (b >> ((128 - p) as u32)) == (a >> ((128 - p) as u32)))),
        p == 32 || p == 128 ==> (network_includes(IpNetwork { addr: IpAddress::V6(a), prefix_len: p }, IpAddress::V6(b)) <==> b == a),
        forall|y: u32| !network_includes(IpNetwork { addr: IpAddress::V6(a), prefix_len: p }, IpAddress::V4(y)),
{
    let net = IpNetwork { addr: IpAddress::V6(a), prefix_len: p };
    if p != 32 && p != 128 {
        assert(!single_address(net));
        let pp: u32 = p as u32;
        if p == 0 {
            assert(v6_netmask(p) == 0u128);
            assert(v6_hostmask(p) == 0xFFFF_FFFF_FFFF_FFFF_FFFF_FFFF_FFFF_FFFFu128 >> 0u32);
            assert((a & 0u128) == 0u128 && (a | (0xFFFF_FFFF_FFFF_FFFF_FFFF_FFFF_FFFF_FFFFu128 >> 0u32))
                == 0xFFFF_FFFF_FFFF_FFFF_FFFF_FFFF_FFFF_FFFFu128) by (bit_vector);
        } else {
            let s: u32 = (128 - p) as u32;
            assert(v6_netmask(p) == 0xFFFF_FFFF_FFFF_FFFF_FFFF_FFFF_FFFF_FFFFu128 << s);
            assert(v6_hostmask(p) == 0xFFFF_FFFF_FFFF_FFFF_FFFF_FFFF_FFFF_FFFFu128 >> pp);
            let m: u128 = 0xFFFF_FFFF_FFFF_FFFF_FFFF_FFFF_FFFF_FFFFu128;
            assert((a & (m << s)) <= (a | (m >> pp))) by (bit_vector);
            assert((b >> s) == (a >> s) ==> ((a & (m << s)) <= b && b <= (a | (m >> pp)))) by (bit_vector)
                requires
                    1 <= pp <= 127,
                    s == 128 - pp,
                    m == 0xFFFF_FFFF_FFFF_FFFF_FFFF_FFFF_FFFF_FFFFu128,
            ;
            assert(((a & (m << s)) <= b && b <= (a | (m >> pp))) ==> (b >> s) == (a >> s)) by (bit_vector)
                requires
                    1 <= pp <= 127,
                    s == 128 - pp,
                    m == 0xFFFF_FFFF_FFFF_FFFF_FFFF_FFFF_FFFF_FFFFu128,
            ;
        }
    }
}

} // verus!

verus! {

/// Which address of an IPv4 network is written does not matter: two
/// addresses that share the first `p` bits stand, with prefix `p`, for the
/// same addresses (so `192.168.1.10/24` and `192.168.1.0/24` scan the same
/// 254 hosts).
pub proof fn lemma_written_address_does_not_matter(a: u32, c: u32, p: u8, x: IpAddress)
    requires
        p <= 30,
        p == 0 || (a >> ((32 - p) as u32)) == (c >> ((32 - p) as u32)),
    ensures
        network_includes(IpNetwork { addr: IpAddress::V4(a), prefix_len: p }, x) == network_includes(
            IpNetwork { addr: IpAddress::V4(c), prefix_len: p },
            x,
        ),
{
    match x {
        IpAddress::V4(b) => {
            lemma_ipv4_network_scans_its_hosts(a, p, b);
            lemma_ipv4_network_scans_its_hosts(c, p, b);
        },
        IpAddress::V6(y) => {
            lemma_ipv4_network_scans_its_hosts(a, p, 0);
            lemma_ipv4_network_scans_its_hosts(c, p, 0);
        },
    }
}

/// The target at index `i` is a network that includes `a`.
pub open spec fn network_at_includes(ts: Seq<TargetView>, i: int, a: IpAddress) -> bool {
    match ts[i] {
        TargetView::Network(n) => network_includes(n, a),
        TargetView::Name(_) => false,
    }
}

/// Scanning a list of targets scans exactly the addresses that one of its
/// networks includes, together with every address looked up for any of its
/// names (the `k`-th name contributes the whole of `lookups[k]`).
pub proof fn lemma_targets_include_is_union(ts: Seq<TargetView>, lookups: Seq<Seq<IpAddress>>, a: IpAddress)
    ensures
        targets_include(ts, lookups, a) <==> ((exists|i: int| 0 <= i < ts.len() && #[trigger] network_at_includes(ts, i, a))
            || (exists|k: int| 0 <= k < name_count(ts) && #[trigger] lookups[k].contains(a))),
    decreases ts.len(),
{
    if ts.len() > 0 {
        let u = ts.drop_last();
        lemma_targets_include_is_union(u, lookups, a);
        let last = ts.len() - 1;
        if exists|i: int| 0 <= i < ts.len() && #[trigger] network_at_includes(ts, i, a) {
            let i = choose|i: int| 0 <= i < ts.len() && #[trigger] network_at_includes(ts, i, a);
            if i < last {
                assert(network_at_includes(u, i, a));
            }
        }
        if exists|i: int| 0 <= i < u.len() && #[trigger] network_at_includes(u, i, a) {
            let i = choose|i: int| 0 <= i < u.len() && #[trigger] network_at_includes(u, i, a);
            assert(network_at_includes(ts, i, a));
        }
        if ts.last() is Network {
            assert(network_at_includes(ts, last, a) == network_includes(ts.last()->Network_0, a));
        } else {
            assert(!network_at_includes(ts, last, a));
        }
    }
}

/// Every address looked up for a name of the list is scanned.
pub proof fn lemma_every_looked_up_address_is_scanned(
    ts: Seq<TargetView>,
    lookups: Seq<Seq<IpAddress>>,
    k: int,
    a: IpAddress,
)
    requires
        0 <= k < name_count(ts),
        lookups[k].contains(a),
    ensures
        targets_include(ts, lookups, a),
{
    lemma_targets_include_is_union(ts, lookups, a);
}

/// Every address that a network of the list includes is scanned.
pub proof fn lemma_every_network_host_is_scanned(ts: Seq<TargetView>, lookups: Seq<Seq<IpAddress>>, i: int, a: IpAddress)
    requires
        0 <= i < ts.len(),
        ts[i] matches TargetView::Network(n) && network_includes(n, a),
    ensures
        targets_include(ts, lookups, a),
{
    lemma_targets_include_is_union(ts, lookups, a);
    assert(network_at_includes(ts, i, a));
}

} // verus!
