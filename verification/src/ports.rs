use vstd::prelude::*;
use crate::text::{
    copy_range, comma_list_items, is_whitespace, list_items, split, split_acc, string_from_chars,
    lemma_list_items_joined, trim, trim_chars, trim_end, trim_start, trimmed_nonempty, views,
};

verus! {

/// Why a piece of text is not a port number, in the terms `u16::from_str`
/// uses.
#[derive(Clone, Copy, Debug, PartialEq, Eq, Structural)]
pub enum IntErrorKind {
    Empty,
    InvalidDigit,
    PosOverflow,
}

/// Why a port list was refused.
#[derive(Clone, Debug)]
pub enum PortSpecError {
    /// A port number (alone or as an end of a range) is not a `u16`.
    InvalidPort(IntErrorKind),
    /// A range whose start is above its end; it holds the trimmed item.
    InvalidRange(String),
}

/// The abstract form of a `PortSpecError`.
pub enum PortListFault {
    InvalidPort(IntErrorKind),
    InvalidRange(Seq<char>),
}

impl View for PortSpecError {
    type V = PortListFault;

    open spec fn view(&self) -> PortListFault {
        match self {
            PortSpecError::InvalidPort(k) => PortListFault::InvalidPort(*k),
            PortSpecError::InvalidRange(s) => PortListFault::InvalidRange(s@),
        }
    }
}

pub open spec fn is_digit(c: char) -> bool {
    48 <= (c as u32) <= 57
}

pub open spec fn digit_value(c: char) -> int {
    (c as u32) - 48
}

/// Reads the decimal digits `digits` after the value `acc` already read,
/// failing at the first character that is not a digit or the first digit
/// that takes the value past `u16::MAX`.
pub open spec fn scan_u16(digits: Seq<char>, acc: int) -> Result<u16, IntErrorKind>
    decreases digits.len(),
{
    if digits.len() == 0 {
        Ok(acc as u16)
    } else if !is_digit(digits[0]) {
        Err(IntErrorKind::InvalidDigit)
    } else if acc * 10 + digit_value(digits[0]) > 65535 {
        Err(IntErrorKind::PosOverflow)
    } else {
        scan_u16(digits.drop_first(), acc * 10 + digit_value(digits[0]))
    }
}

/// What `u16::from_str` gives for `s`: an optional leading `+`, then one or
/// more decimal digits whose value fits in a `u16`.
pub open spec fn parse_u16(s: Seq<char>) -> Result<u16, IntErrorKind> {
    if s.len() == 0 {
        Err(IntErrorKind::Empty)
    } else if s.len() == 1 && (s[0] == '+' || s[0] == '-') {
        Err(IntErrorKind::InvalidDigit)
    } else if s[0] == '+' {
        scan_u16(s.drop_first(), 0)
    } else {
        scan_u16(s, 0)
    }
}

/// The index of the first `c` in `s`, if there is one.
pub open spec fn find_char(s: Seq<char>, c: char) -> Option<int>
    decreases s.len(),
{
    if s.len() == 0 {
        None
    } else if s[0] == c {
        Some(0)
    } else {
        match find_char(s.drop_first(), c) {
            Some(k) => Some(k + 1),
            None => None,
        }
    }
}

/// The ports `lo` through `hi`, in increasing order.
pub open spec fn port_range(lo: u16, hi: u16) -> Seq<u16> {
    Seq::new((hi - lo + 1) as nat, |i: int| (lo + i) as u16)
}

/// The ports that one item of a port list names: `a-b` (split at the first
/// hyphen, each end trimmed) names `a` through `b`, anything else names the
/// single port it spells.
pub open spec fn item_ports(item: Seq<char>) -> Result<Seq<u16>, PortListFault> {
    match find_char(item, '-') {
        Some(k) => match parse_u16(trim(item.take(k))) {
            Err(e) => Err(PortListFault::InvalidPort(e)),
            Ok(lo) => match parse_u16(trim(item.skip(k + 1))) {
                Err(e) => Err(PortListFault::InvalidPort(e)),
                Ok(hi) => if lo > hi {
                    Err(PortListFault::InvalidRange(item))
                } else {
                    Ok(port_range(lo, hi))
                },
            },
        },
        None => match parse_u16(item) {
            Err(e) => Err(PortListFault::InvalidPort(e)),
            Ok(p) => Ok(seq![p]),
        },
    }
}

/// The ports that the items name, in the order of the items, or the fault
/// of the first item that has one.
pub open spec fn collect_ports(items: Seq<Seq<char>>) -> Result<Seq<u16>, PortListFault>
    decreases items.len(),
{
    if items.len() == 0 {
        Ok(seq![])
    } else {
        match collect_ports(items.drop_last()) {
            Err(e) => Err(e),
            Ok(ps) => match item_ports(items.last()) {
                Err(e) => Err(e),
                Ok(q) => Ok(ps + q),
            },
        }
    }
}

/// Strictly increasing: sorted, and nothing occurs twice.
pub open spec fn strictly_increasing(s: Seq<u16>) -> bool {
    forall|i: int, j: int| 0 <= i < j < s.len() ==> s[i] < s[j]
}

/// `v` is the sorted list, without repetition, of the ports in `ps`.
pub open spec fn sorted_port_set(v: Seq<u16>, ps: Seq<u16>) -> bool {
    &&& strictly_increasing(v)
    &&& forall|p: u16| v.contains(p) <==> ps.contains(p)
}

/// `u16::from_str` on `s`.
pub fn parse_port_number(s: &Vec<char>) -> (res: Result<u16, IntErrorKind>)
    ensures
        res == parse_u16(s@),
{
    let n = s.len();
    if n == 0 {
        return Err(IntErrorKind::Empty);
    }
    if n == 1 && (s[0] == '+' || s[0] == '-') {
        return Err(IntErrorKind::InvalidDigit);
    }
    let mut i: usize = if s[0] == '+' { 1 } else { 0 };
    let ghost digits = if s@[0] == '+' { s@.drop_first() } else { s@ };
    assert(digits =~= s@.skip(i as int));
    let mut acc: u32 = 0;
    while i < n
        invariant
            n == s@.len(),
            i <= n,
            acc <= 65535,
            parse_u16(s@) == scan_u16(s@.skip(i as int), acc as int),
        decreases n - i,
    {
        let c = s[i];
        assert(s@.skip(i as int)[0] == c);
        assert(s@.skip(i as int).drop_first() =~= s@.skip(i + 1));
        let u = c as u32;
        if !(48 <= u && u <= 57) {
            return Err(IntErrorKind::InvalidDigit);
        }
        let next = acc * 10 + (u - 48);
        if next > 65535 {
            return Err(IntErrorKind::PosOverflow);
        }
        acc = next;
        i = i + 1;
    }
    assert(s@.skip(n as int).len() == 0);
    Ok(acc as u16)
}

/// The index of the first `c` in `s`, if there is one.
pub fn find_first(s: &Vec<char>, c: char) -> (res: Option<usize>)
    ensures
        res matches Some(k) ==> k < s@.len() && find_char(s@, c) == Some(k as int),
        res is None ==> find_char(s@, c) is None,
{
    let n = s.len();
    let mut i: usize = 0;
    assert(s@.skip(0) =~= s@);
    while i < n
        invariant
            n == s@.len(),
            i <= n,
            forall|k: int| 0 <= k < i ==> s@[k] != c,
            find_char(s@, c) == match find_char(s@.skip(i as int), c) {
                Some(k) => Some(k + i),
                None => None,
            },
        decreases n - i,
    {
        assert(s@.skip(i as int)[0] == s@[i as int]);
        assert(s@.skip(i as int).drop_first() =~= s@.skip(i + 1));
        if s[i] == c {
            return Some(i);
        }
        i = i + 1;
    }
    None
}

/// The ports that one trimmed item of a port list names.
pub fn parse_port_item(item: &Vec<char>) -> (res: Result<(u16, u16), PortSpecError>)
    ensures
        match item_ports(item@) {
            Ok(q) => res matches Ok((lo, hi)) && lo <= hi && q == port_range(lo, hi),
            Err(f) => res matches Err(e) && e@ == f,
        },
{
    let n = item.len();
    match find_first(item, '-') {
        Some(k) => {
            assert(k < n);
            let start = trim_chars(&copy_range(item, 0, k));
            assert(item@.subrange(0, k as int) =~= item@.take(k as int));
            let end = trim_chars(&copy_range(item, k + 1, n));
            assert(item@.subrange(k + 1, item@.len() as int) =~= item@.skip(k + 1));
            let lo = match parse_port_number(&start) {
                Ok(v) => v,
                Err(e) => return Err(PortSpecError::InvalidPort(e)),
            };
            let hi = match parse_port_number(&end) {
                Ok(v) => v,
                Err(e) => return Err(PortSpecError::InvalidPort(e)),
            };
            if lo > hi {
                let text = string_from_chars(item);
                return Err(PortSpecError::InvalidRange(text));
            }
            Ok((lo, hi))
        },
        None => {
            match parse_port_number(item) {
                Ok(p) => {
                    assert(port_range(p, p) =~= seq![p]);
                    Ok((p, p))
                },
                Err(e) => Err(PortSpecError::InvalidPort(e)),
            }
        },
    }
}

proof fn lemma_port_range_contains(lo: u16, hi: u16, p: u16)
    requires
        lo <= hi,
    ensures
        port_range(lo, hi).contains(p) <==> lo <= p <= hi,
{
    if lo <= p <= hi {
        assert(port_range(lo, hi)[p - lo] == p);
    }
}

/// The ports that the list `spec` names, sorted and without repetition:
/// items are separated by commas and trimmed, empty items are skipped, an
/// item `a-b` names the ports `a` through `b`, and any other item names the
/// single port it spells. The first item that is not a port, or a range
/// whose start is above its end, makes the whole list fail.
pub fn parse_port_spec(spec: &str) -> (res: Result<Vec<u16>, PortSpecError>)
    ensures
        match collect_ports(list_items(spec@)) {
            Ok(ps) => res matches Ok(v) && sorted_port_set(v@, ps),
            Err(f) => res matches Err(e) && e@ == f,
        },
{
    let items = comma_list_items(spec);
    let ghost items_v = views(items@);
    let mut seen: Vec<bool> = Vec::new();
    while seen.len() < 65536
        invariant
            seen@.len() <= 65536,
            forall|k: int| 0 <= k < seen@.len() ==> !seen@[k],
        decreases 65536 - seen@.len(),
    {
        seen.push(false);
    }
    let n = items.len();
    let mut i: usize = 0;
    while i < n
        invariant
            n == items@.len(),
            items_v == views(items@),
            items_v == list_items(spec@),
            i <= n,
            seen@.len() == 65536,
            collect_ports(items_v.take(i as int)) is Ok,
            forall|p: u16| #[trigger] seen@[p as int] <==> collect_ports(
                items_v.take(i as int),
            )->Ok_0.contains(p),
        decreases n - i,
    {
        let ghost before = collect_ports(items_v.take(i as int))->Ok_0;
        assert(items_v.take(i + 1).drop_last() =~= items_v.take(i as int));
        assert(items_v.take(i + 1).last() == items@[i as int]@);
        let (lo, hi) = match parse_port_item(&items[i]) {
            Ok(r) => r,
            Err(e) => {
                proof {
                    assert(items_v =~= items_v.take(items_v.len() as int));
                    lemma_collect_ports_error_persists(items_v, i + 1);
                }
                return Err(e);
            },
        };
        let ghost after = before + port_range(lo, hi);
        let mut p: u32 = lo as u32;
        while p <= hi as u32
            invariant
                lo <= hi,
                lo <= p <= hi as u32 + 1,
                seen@.len() == 65536,
                forall|x: u16| #[trigger] seen@[x as int] <==> (before.contains(x) || (lo <= x
                    && (x as u32) < p)),
            decreases hi as u32 + 1 - p,
        {
            seen.set(p as usize, true);
            p = p + 1;
        }
        assert forall|x: u16| after.contains(x) implies #[trigger] seen@[x as int] by {
            lemma_port_range_contains(lo, hi, x);
            if after.contains(x) {
                let k = choose|k: int| 0 <= k < after.len() && after[k] == x;
                if k >= before.len() {
                    assert(port_range(lo, hi)[k - before.len()] == x);
                } else {
                    assert(before[k] == x);
                }
            }
        }
        assert forall|x: u16| #[trigger] seen@[x as int] implies after.contains(x) by {
            lemma_port_range_contains(lo, hi, x);
            if before.contains(x) {
                let k = choose|k: int| 0 <= k < before.len() && before[k] == x;
                assert(after[k] == x);
            } else if seen@[x as int] {
                let k = choose|k: int| 0 <= k < port_range(lo, hi).len() && port_range(lo, hi)[k] == x;
                assert(after[before.len() + k] == x);
            }
        }
        i = i + 1;
    }
    assert(items_v.take(n as int) =~= items_v);
    let ghost all = collect_ports(items_v)->Ok_0;
    let mut res: Vec<u16> = Vec::new();
    let mut q: u32 = 0;
    while q < 65536
        invariant
            q <= 65536,
            seen@.len() == 65536,
            forall|x: u16| #[trigger] seen@[x as int] <==> all.contains(x),
            forall|k: int| 0 <= k < res@.len() ==> (res@[k] as u32) < q,
            strictly_increasing(res@),
            forall|x: u16| (x as u32) < q ==> (res@.contains(x) <==> #[trigger] seen@[x as int]),
            forall|x: u16| res@.contains(x) ==> (x as u32) < q,
        decreases 65536 - q,
    {
        let ghost old_res = res@;
        let b = seen[q as usize];
        if b {
            res.push(q as u16);
            assert forall|x: u16| (x as u32) < q + 1 implies (res@.contains(x) <==> #[trigger] seen@[x as int]) by {
                if res@.contains(x) {
                    let k = choose|k: int| 0 <= k < res@.len() && res@[k] == x;
                    if k < old_res.len() {
                        assert(old_res[k] == x);
                    }
                }
                if old_res.contains(x) {
                    let k = choose|k: int| 0 <= k < old_res.len() && old_res[k] == x;
                    assert(res@[k] == x);
                }
                if x as u32 == q {
                    assert(res@[res@.len() - 1] == x);
                }
            }
        } else {
            assert forall|x: u16| (x as u32) < q + 1 implies (res@.contains(x) <==> #[trigger] seen@[x as int]) by {
                if x as u32 == q {
                    assert(x as int == q as usize as int);
                    assert(!old_res.contains(x));
                }
            }
        }
        q = q + 1;
    }
    assert forall|x: u16| res@.contains(x) <==> all.contains(x) by {
        assert(seen@[x as int] <==> all.contains(x));
    }
    Ok(res)
}

proof fn lemma_collect_ports_error_persists(items: Seq<Seq<char>>, i: int)
    requires
        0 < i <= items.len(),
        collect_ports(items.take(i - 1)) is Ok,
        item_ports(items[i - 1]) is Err,
    ensures
        collect_ports(items) == Err::<Seq<u16>, PortListFault>(item_ports(items[i - 1])->Err_0),
    decreases items.len() - i,
{
    if i == items.len() {
        assert(items.take(i) =~= items);
        assert(items.drop_last() =~= items.take(i - 1));
    } else {
        assert(items.drop_last().take(i - 1) =~= items.take(i - 1));
        assert(items.drop_last()[i - 1] == items[i - 1]);
        lemma_collect_ports_error_persists(items.drop_last(), i);
    }
}

} // verus!

verus! {

/// The most common ports, in the order in which `--top-ports` takes them.
pub open spec fn top_ports_list() -> Seq<u16> {
    seq![
        20u16, 21, 22, 23, 25, 53, 80, 110, 111, 135, 139, 143, 443, 445, 993, 995, 1723, 3306,
        3389, 5900, 8080,
    ]
}

/// The `i`-th most common port, if there is one.
pub fn top_port(i: usize) -> (res: Option<u16>)
    ensures
        i < top_ports_list().len() ==> res == Some(top_ports_list()[i as int]),
        i >= top_ports_list().len() ==> res is None,
{
    match i {
        0 => Some(20),
        1 => Some(21),
        2 => Some(22),
        3 => Some(23),
        4 => Some(25),
        5 => Some(53),
        6 => Some(80),
        7 => Some(110),
        8 => Some(111),
        9 => Some(135),
        10 => Some(139),
        11 => Some(143),
        12 => Some(443),
        13 => Some(445),
        14 => Some(993),
        15 => Some(995),
        16 => Some(1723),
        17 => Some(3306),
        18 => Some(3389),
        19 => Some(5900),
        20 => Some(8080),
        _ => None,
    }
}

/// The first `n` of the most common ports (all of them where `n` is larger
/// than their number).
pub fn top_ports(n: usize) -> (res: Vec<u16>)
    ensures
        res@ == top_ports_list().take(if n < top_ports_list().len() { n as int } else { top_ports_list().len() as int }),
{
    let limit: usize = if n < 21 { n } else { 21 };
    let mut res: Vec<u16> = Vec::new();
    let mut i: usize = 0;
    while i < limit
        invariant
            limit <= 21,
            limit == (if n < top_ports_list().len() { n as int } else { top_ports_list().len() as int }),
            i <= limit,
            res@ == top_ports_list().take(i as int),
        decreases limit - i,
    {
        if let Some(p) = top_port(i) {
            res.push(p);
        }
        assert(res@ =~= top_ports_list().take(i + 1));
        i = i + 1;
    }
    res
}

/// The ports to scan: the first `n` most common ports where `top` is
/// `Some(n)`, else the ports that the list `spec` names.
pub fn select_ports(top: Option<usize>, spec: &str) -> (res: Result<Vec<u16>, PortSpecError>)
    ensures
        match top {
            Some(n) => res matches Ok(v) && v@ == top_ports_list().take(
                if n < top_ports_list().len() { n as int } else { top_ports_list().len() as int },
            ),
            None => match collect_ports(list_items(spec@)) {
                Ok(ps) => res matches Ok(v) && sorted_port_set(v@, ps),
                Err(f) => res matches Err(e) && e@ == f,
            },
        },
{
    match top {
        Some(n) => Ok(top_ports(n)),
        None => parse_port_spec(spec),
    }
}

} // verus!

verus! {

proof fn lemma_increasing_same_elements(v1: Seq<u16>, v2: Seq<u16>)
    requires
        strictly_increasing(v1),
        strictly_increasing(v2),
        forall|p: u16| v1.contains(p) <==> v2.contains(p),
    ensures
        v1 == v2,
    decreases v1.len() + v2.len(),
{
    if v1.len() == 0 {
        if v2.len() > 0 {
            assert(v2.contains(v2[0]));
        }
        assert(v1 =~= v2);
    } else if v2.len() == 0 {
        assert(v1.contains(v1[0]));
    } else {
        assert(v1.contains(v1[0]));
        assert(v2.contains(v2[0]));
        let k1 = choose|k: int| 0 <= k < v2.len() && v2[k] == v1[0];
        let k2 = choose|k: int| 0 <= k < v1.len() && v1[k] == v2[0];
        if k1 > 0 {
            assert(v2[0] < v2[k1]);
        }
        if k2 > 0 {
            assert(v1[0] < v1[k2]);
        }
        assert(v1[0] == v2[0]);
        let r1 = v1.drop_first();
        let r2 = v2.drop_first();
        assert forall|p: u16| r1.contains(p) <==> r2.contains(p) by {
            if r1.contains(p) {
                let k = choose|k: int| 0 <= k < r1.len() && r1[k] == p;
                assert(v1[k + 1] == p);
                assert(v2.contains(p));
                let j = choose|j: int| 0 <= j < v2.len() && v2[j] == p;
                if j == 0 {
                    assert(v1[0] < v1[k + 1]);
                }
                assert(r2[j - 1] == p);
            }
            if r2.contains(p) {
                let k = choose|k: int| 0 <= k < r2.len() && r2[k] == p;
                assert(v2[k + 1] == p);
                assert(v1.contains(p));
                let j = choose|j: int| 0 <= j < v1.len() && v1[j] == p;
                if j == 0 {
                    assert(v2[0] < v2[k + 1]);
                }
                assert(r1[j - 1] == p);
            }
        }
        lemma_increasing_same_elements(r1, r2);
        assert(v1 =~= seq![v1[0]] + r1);
        assert(v2 =~= seq![v2[0]] + r2);
    }
}

/// The sorted, repetition-free port list that `parse_port_spec` returns
/// depends only on the set of ports that the specification names: two
/// specifications naming the same ports (in any order, repeated or in
/// overlapping ranges) give the same list.
pub proof fn lemma_same_ports_same_list(v1: Seq<u16>, ps1: Seq<u16>, v2: Seq<u16>, ps2: Seq<u16>)
    requires
        sorted_port_set(v1, ps1),
        sorted_port_set(v2, ps2),
        forall|p: u16| ps1.contains(p) <==> ps2.contains(p),
    ensures
        v1 == v2,
{
    lemma_increasing_same_elements(v1, v2);
}

} // verus!

verus! {

/// The decimal digit character for `d` (from 0 to 9).
pub open spec fn digit_char(d: int) -> char {
    if d == 0 {
        '0'
    } else if d == 1 {
        '1'
    } else if d == 2 {
        '2'
    } else if d == 3 {
        '3'
    } else if d == 4 {
        '4'
    } else if d == 5 {
        '5'
    } else if d == 6 {
        '6'
    } else if d == 7 {
        '7'
    } else if d == 8 {
        '8'
    } else {
        '9'
    }
}

/// `n` written in decimal, without leading zeros, as `u16`'s `Display`
/// writes it.
pub open spec fn decimal(n: nat) -> Seq<char>
    decreases n,
{
    if n < 10 {
        seq![digit_char(n as int)]
    } else {
        decimal(n / 10).push(digit_char((n % 10) as int))
    }
}

/// The ports `v` written in decimal and separated by commas.
pub open spec fn port_list_text(v: Seq<u16>) -> Seq<char>
    decreases v.len(),
{
    if v.len() == 0 {
        seq![]
    } else if v.len() == 1 {
        decimal(v[0] as nat)
    } else {
        port_list_text(v.drop_last()) + seq![','] + decimal(v.last() as nat)
    }
}

/// The ports `v`, each written in decimal.
pub open spec fn decimals(v: Seq<u16>) -> Seq<Seq<char>> {
    v.map_values(|p: u16| decimal(p as nat))
}

pub open spec fn all_digits(s: Seq<char>) -> bool {
    forall|i: int| 0 <= i < s.len() ==> is_digit(#[trigger] s[i])
}

/// The value of the decimal digits `s` read after the value `acc`.
pub open spec fn digits_value(s: Seq<char>, acc: int) -> int
    decreases s.len(),
{
    if s.len() == 0 {
        acc
    } else {
        digits_value(s.drop_first(), acc * 10 + digit_value(s[0]))
    }
}

proof fn lemma_digits_value_grows(s: Seq<char>, acc: int)
    requires
        all_digits(s),
        acc >= 0,
    ensures
        digits_value(s, acc) >= acc,
    decreases s.len(),
{
    if s.len() > 0 {
        assert(is_digit(s[0]));
        assert(all_digits(s.drop_first())) by {
            assert forall|i: int| 0 <= i < s.drop_first().len() implies is_digit(#[trigger] s.drop_first()[i]) by {
                assert(s.drop_first()[i] == s[i + 1]);
            }
        }
        lemma_digits_value_grows(s.drop_first(), acc * 10 + digit_value(s[0]));
    }
}

proof fn lemma_scan_digits(s: Seq<char>, acc: int)
    requires
        all_digits(s),
        acc >= 0,
        digits_value(s, acc) <= 65535,
    ensures
        scan_u16(s, acc) == Ok::<u16, IntErrorKind>(digits_value(s, acc) as u16),
    decreases s.len(),
{
    if s.len() > 0 {
        assert(is_digit(s[0]));
        assert(all_digits(s.drop_first())) by {
            assert forall|i: int| 0 <= i < s.drop_first().len() implies is_digit(#[trigger] s.drop_first()[i]) by {
                assert(s.drop_first()[i] == s[i + 1]);
            }
        }
        lemma_digits_value_grows(s.drop_first(), acc * 10 + digit_value(s[0]));
        lemma_scan_digits(s.drop_first(), acc * 10 + digit_value(s[0]));
    }
}

proof fn lemma_digits_value_push(s: Seq<char>, c: char, acc: int)
    ensures
        digits_value(s.push(c), acc) == digits_value(s, acc) * 10 + digit_value(c),
    decreases s.len(),
{
    if s.len() == 0 {
        assert(s.push(c).drop_first() =~= Seq::<char>::empty());
        assert(s.push(c)[0] == c);
        assert(digits_value(s.push(c), acc) == digits_value(Seq::<char>::empty(), acc * 10 + digit_value(c)));
    } else {
        assert(s.push(c).drop_first() =~= s.drop_first().push(c));
        assert(s.push(c)[0] == s[0]);
        lemma_digits_value_push(s.drop_first(), c, acc * 10 + digit_value(s[0]));
    }
}

proof fn lemma_digit_char(d: int)
    requires
        0 <= d < 10,
    ensures
        is_digit(digit_char(d)),
        digit_value(digit_char(d)) == d,
        !is_whitespace(digit_char(d)),
        digit_char(d) != ',',
        digit_char(d) != '-',
        digit_char(d) != '+',
{
}

proof fn lemma_decimal(n: nat)
    ensures
        decimal(n).len() > 0,
        all_digits(decimal(n)),
        digits_value(decimal(n), 0) == n,
    decreases n,
{
    if n < 10 {
        lemma_digit_char(n as int);
        let s = seq![digit_char(n as int)];
        assert(s.drop_first() =~= Seq::<char>::empty());
        assert(s[0] == digit_char(n as int));
        assert(digits_value(s, 0) == digits_value(Seq::<char>::empty(), 0 * 10 + digit_value(s[0])));
    } else {
        lemma_decimal(n / 10);
        let d = (n % 10) as int;
        lemma_digit_char(d);
        let s = decimal(n / 10);
        assert forall|i: int| 0 <= i < s.push(digit_char(d)).len() implies is_digit(#[trigger] s.push(digit_char(d))[i]) by {
            if i < s.len() {
                assert(s.push(digit_char(d))[i] == s[i]);
            }
        }
        lemma_digits_value_push(s, digit_char(d), 0);
        assert(decimal(n) == s.push(digit_char(d)));
        assert((n / 10) * 10 + n % 10 == n);
        assert(digits_value(s.push(digit_char(d)), 0) == (n / 10) * 10 + d);
    }
}

proof fn lemma_digits_have_no(s: Seq<char>, c: char)
    requires
        all_digits(s),
        !is_digit(c),
    ensures
        find_char(s, c) is None,
    decreases s.len(),
{
    if s.len() > 0 {
        assert(is_digit(s[0]));
        assert(all_digits(s.drop_first())) by {
            assert forall|i: int| 0 <= i < s.drop_first().len() implies is_digit(#[trigger] s.drop_first()[i]) by {
                assert(s.drop_first()[i] == s[i + 1]);
            }
        }
        lemma_digits_have_no(s.drop_first(), c);
    }
}

/// One port written in decimal is an item that names exactly that port.
proof fn lemma_decimal_item(p: u16)
    ensures
        trim(decimal(p as nat)) == decimal(p as nat),
        decimal(p as nat).len() > 0,
        item_ports(decimal(p as nat)) == Ok::<Seq<u16>, PortListFault>(seq![p]),
        forall|i: int| 0 <= i < decimal(p as nat).len() ==> #[trigger] decimal(p as nat)[i] != ',',
{
    let s = decimal(p as nat);
    lemma_decimal(p as nat);
    assert(is_digit(s[0]));
    assert(is_digit(s.last()));
    assert(!is_whitespace(s[0]));
    assert(!is_whitespace(s.last()));
    assert(trim_start(s) == s);
    assert(trim_end(s) == s);
    lemma_digits_have_no(s, '-');
    lemma_scan_digits(s, 0);
    assert(parse_u16(s) == Ok::<u16, IntErrorKind>(p));
    assert forall|i: int| 0 <= i < s.len() implies #[trigger] s[i] != ',' by {
        assert(is_digit(s[i]));
    }
}

proof fn lemma_split_acc_append(s: Seq<char>, t: Seq<char>, sep: char)
    requires
        forall|i: int| 0 <= i < t.len() ==> #[trigger] t[i] != sep,
    ensures
        split_acc(s + t, sep) == (split_acc(s, sep).0, split_acc(s, sep).1 + t),
    decreases t.len(),
{
    if t.len() == 0 {
        assert(s + t =~= s);
        assert(split_acc(s, sep).1 + t =~= split_acc(s, sep).1);
    } else {
        assert((s + t).drop_last() =~= s + t.drop_last());
        assert((s + t).last() == t.last());
        lemma_split_acc_append(s, t.drop_last(), sep);
        assert(split_acc(s, sep).1 + t =~= (split_acc(s, sep).1 + t.drop_last()).push(t.last()));
    }
}

proof fn lemma_split_port_list(v: Seq<u16>)
    requires
        v.len() > 0,
    ensures
        split(port_list_text(v), ',') == decimals(v),
    decreases v.len(),
{
    let d = decimal(v.last() as nat);
    lemma_decimal_item(v.last());
    if v.len() == 1 {
        let empty = Seq::<char>::empty();
        lemma_split_acc_append(empty, d, ',');
        assert(empty + d =~= d);
        assert(split_acc(empty, ',') == (Seq::<Seq<char>>::empty(), empty));
        assert(empty + d =~= d);
        assert(decimals(v) =~= seq![d]);
    } else {
        let front = port_list_text(v.drop_last());
        lemma_split_port_list(v.drop_last());
        assert(front + seq![','] + d =~= front.push(',') + d);
        lemma_split_acc_append(front.push(','), d, ',');
        assert(front.push(',').drop_last() =~= front);
        let e = Seq::<char>::empty();
        assert(e + d =~= d);
        assert(decimals(v) =~= decimals(v.drop_last()).push(d));
    }
}

proof fn lemma_trimmed_decimals(v: Seq<u16>)
    ensures
        trimmed_nonempty(decimals(v)) == decimals(v),
    decreases v.len(),
{
    if v.len() > 0 {
        lemma_trimmed_decimals(v.drop_last());
        lemma_decimal_item(v.last());
        assert(decimals(v).drop_last() =~= decimals(v.drop_last()));
        assert(decimals(v) =~= decimals(v.drop_last()).push(decimal(v.last() as nat)));
    } else {
        assert(decimals(v) =~= Seq::<Seq<char>>::empty());
    }
}

proof fn lemma_collect_decimals(v: Seq<u16>)
    ensures
        collect_ports(decimals(v)) == Ok::<Seq<u16>, PortListFault>(v),
    decreases v.len(),
{
    if v.len() > 0 {
        lemma_collect_decimals(v.drop_last());
        lemma_decimal_item(v.last());
        assert(decimals(v).drop_last() =~= decimals(v.drop_last()));
        assert(decimals(v).last() == decimal(v.last() as nat));
        assert(v.drop_last() + seq![v.last()] =~= v);
    } else {
        assert(decimals(v) =~= Seq::<Seq<char>>::empty());
        assert(v =~= Seq::<u16>::empty());
    }
}

/// Printing a port list that `parse_port_spec` returned (each port in
/// decimal, separated by commas) and parsing the text again gives the same
/// list: the text names exactly the ports of the list, and the only sorted,
/// repetition-free list of those ports is the list itself.
pub proof fn lemma_print_then_parse_port_list(v: Seq<u16>)
    requires
        strictly_increasing(v),
    ensures
        collect_ports(list_items(port_list_text(v))) == Ok::<Seq<u16>, PortListFault>(v),
        forall|w: Seq<u16>| sorted_port_set(w, v) ==> w == v,
{
    if v.len() > 0 {
        lemma_split_port_list(v);
    } else {
        let e = Seq::<char>::empty();
        assert(split_acc(e, ',') == (Seq::<Seq<char>>::empty(), e));
        assert(split(e, ',') =~= seq![e]);
        assert(seq![e].drop_last() =~= Seq::<Seq<char>>::empty());
        assert(trim_start(e) == e);
        assert(trim_end(e) == e);
        assert(decimals(v) =~= Seq::<Seq<char>>::empty());
    }
    lemma_trimmed_decimals(v);
    lemma_collect_decimals(v);
    assert forall|w: Seq<u16>| sorted_port_set(w, v) implies w == v by {
        lemma_increasing_same_elements(w, v);
    }
}

} // verus!

verus! {

/// The ports of two item lists one after the other: the fault of the first
/// list if it has one, else the fault of the second, else the ports of the
/// first followed by those of the second.
proof fn lemma_collect_ports_concat(x: Seq<Seq<char>>, y: Seq<Seq<char>>)
    ensures
        collect_ports(x + y) == match collect_ports(x) {
            Err(e) => Err(e),
            Ok(p) => match collect_ports(y) {
                Err(e) => Err(e),
                Ok(q) => Ok(p + q),
            },
        },
    decreases y.len(),
{
    if y.len() == 0 {
        assert(x + y =~= x);
        if let Ok(p) = collect_ports(x) {
            assert(p + Seq::<u16>::empty() =~= p);
        }
    } else {
        let u = y.drop_last();
        lemma_collect_ports_concat(x, u);
        assert((x + y).drop_last() =~= x + u);
        assert((x + y).last() == y.last());
        if let Ok(p) = collect_ports(x) {
            if let Ok(q) = collect_ports(u) {
                if let Ok(r) = item_ports(y.last()) {
                    assert(p + q + r =~= p + (q + r));
                }
            }
        }
    }
}

proof fn lemma_concat_contains(p: Seq<u16>, q: Seq<u16>, x: u16)
    ensures
        (p + q).contains(x) <==> (p.contains(x) || q.contains(x)),
{
    if (p + q).contains(x) {
        let k = choose|k: int| 0 <= k < (p + q).len() && (p + q)[k] == x;
        if k < p.len() {
            assert(p[k] == x);
        } else {
            assert(q[k - p.len()] == x);
        }
    }
    if p.contains(x) {
        let k = choose|k: int| 0 <= k < p.len() && p[k] == x;
        assert((p + q)[k] == x);
    }
    if q.contains(x) {
        let k = choose|k: int| 0 <= k < q.len() && q[k] == x;
        assert((p + q)[p.len() + k] == x);
    }
}

/// Two port specifications joined by a comma (in either order) parse
/// exactly when both parse, and then to the sorted union of their lists:
/// where `x` and `y` are what `parse_port_spec` gives for `a` and `b`, any
/// list `z` it may give for `a,b` or for `b,a` is strictly increasing and
/// holds exactly the ports of `x` and `y`.
pub proof fn lemma_joined_port_specs(a: Seq<char>, b: Seq<char>, x: Seq<u16>, y: Seq<u16>, z: Seq<u16>)
    ensures
        collect_ports(list_items(a + seq![','] + b)) is Ok <==> (collect_ports(list_items(a)) is Ok
            && collect_ports(list_items(b)) is Ok),
        collect_ports(list_items(b + seq![','] + a)) is Ok <==> (collect_ports(list_items(a)) is Ok
            && collect_ports(list_items(b)) is Ok),
        (collect_ports(list_items(a)) matches Ok(pa) && sorted_port_set(x, pa))
            && (collect_ports(list_items(b)) matches Ok(pb) && sorted_port_set(y, pb))
            && ((collect_ports(list_items(a + seq![','] + b)) matches Ok(pab) && sorted_port_set(z, pab))
            || (collect_ports(list_items(b + seq![','] + a)) matches Ok(pba) && sorted_port_set(z, pba)))
            ==> strictly_increasing(z) && forall|p: u16| #[trigger] z.contains(p) <==> (x.contains(p) || y.contains(p)),
{
    lemma_list_items_joined(a, b);
    lemma_list_items_joined(b, a);
    lemma_collect_ports_concat(list_items(a), list_items(b));
    lemma_collect_ports_concat(list_items(b), list_items(a));
    if collect_ports(list_items(a)) is Ok && collect_ports(list_items(b)) is Ok {
        let pa = collect_ports(list_items(a))->Ok_0;
        let pb = collect_ports(list_items(b))->Ok_0;
        if sorted_port_set(x, pa) && sorted_port_set(y, pb) && (sorted_port_set(z, pa + pb) || sorted_port_set(z, pb + pa)) {
            assert forall|p: u16| #[trigger] z.contains(p) <==> (x.contains(p) || y.contains(p)) by {
                lemma_concat_contains(pa, pb, p);
                lemma_concat_contains(pb, pa, p);
            }
        }
    }
}

} // verus!
