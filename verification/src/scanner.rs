use vstd::prelude::*;
use crate::models::{HostInfo, IpAddress, PortState, Protocol, ScanResult};
use crate::ports::find_char;
use crate::text::{
    char_is_control, chars_of, is_control, is_whitespace, string_from_chars, trim, trim_chars,
    trim_end, trim_start,
};

verus! {

/// What `String::from_utf8_lossy` gives for a byte sequence: the text it
/// decodes, with each invalid sequence replaced by U+FFFD.
pub uninterp spec fn utf8_lossy(bytes: Seq<u8>) -> Seq<char>;

/// Calls `String::from_utf8_lossy` on `bytes`. The contract names the
/// decoded text and claims what std documents of it: valid UTF-8 comes back
/// as the text it encodes, each invalid sequence becomes one replacement
/// character, so the text has at most as many characters as there are
/// bytes, and it is empty exactly when there are no bytes. Which characters
/// replace which invalid sequences is left unsaid.
#[verifier::external_body]
fn decode_lossy(bytes: &[u8]) -> (res: String)
    ensures
        res@ == utf8_lossy(bytes@),
        res@.len() <= bytes@.len(),
        res@.len() == 0 <==> bytes@.len() == 0,
        vstd::utf8::valid_utf8(bytes@) ==> res@ == vstd::utf8::decode_utf8(bytes@),
{
    String::from_utf8_lossy(bytes).into_owned()
}

/// How long to wait for a greeting, in milliseconds.
pub const GREETING_TIMEOUT_MS: u64 = 500;

/// How long to wait for the reply to a probe request, in milliseconds.
pub const PROBE_TIMEOUT_MS: u64 = 1500;

/// How many bytes of a greeting or reply are read at most.
pub const BANNER_BUFFER_LEN: usize = 1024;

/// `s` with each line feed and carriage return turned into a space.
pub open spec fn spaces_for_line_breaks(s: Seq<char>) -> Seq<char> {
    s.map_values(|c: char| if c == '\n' || c == '\r' { ' ' } else { c })
}

/// `s` without its control characters.
pub open spec fn without_controls(s: Seq<char>) -> Seq<char>
    decreases s.len(),
{
    if s.len() == 0 {
        seq![]
    } else if is_control(s.last()) {
        without_controls(s.drop_last())
    } else {
        without_controls(s.drop_last()).push(s.last())
    }
}

/// A banner as it is shown: trimmed, line breaks turned into spaces, and
/// control characters removed.
pub open spec fn sanitize(s: Seq<char>) -> Seq<char> {
    without_controls(spaces_for_line_breaks(trim(s)))
}

proof fn lemma_without_controls_clean(s: Seq<char>)
    ensures
        forall|i: int| 0 <= i < without_controls(s).len() ==> !is_control(#[trigger] without_controls(s)[i]),
    decreases s.len(),
{
    if s.len() > 0 {
        lemma_without_controls_clean(s.drop_last());
        let r = without_controls(s.drop_last());
        if !is_control(s.last()) {
            assert forall|i: int| 0 <= i < r.len() + 1 implies !is_control(#[trigger] r.push(s.last())[i]) by {
                if i < r.len() {
                    assert(r.push(s.last())[i] == r[i]);
                }
            }
        }
    }
}

/// The banner text `text` as it is shown: trimmed, line breaks turned into
/// spaces, control characters removed. No control character (line breaks
/// among them) is left in it.
pub fn sanitize_text(text: &str) -> (res: String)
    ensures
        res@ == sanitize(text@),
        forall|i: int| 0 <= i < res@.len() ==> !is_control(#[trigger] res@[i]),
{
    let t = trim_chars(&chars_of(text));
    let ghost spaced = spaces_for_line_breaks(t@);
    let n = t.len();
    let mut out: Vec<char> = Vec::new();
    let mut i: usize = 0;
    while i < n
        invariant
            n == t@.len(),
            t@ == trim(text@),
            spaced == spaces_for_line_breaks(t@),
            i <= n,
            out@ == without_controls(spaced.take(i as int)),
        decreases n - i,
    {
        let c = t[i];
        let d = if c == '\n' || c == '\r' { ' ' } else { c };
        assert(spaced.take(i + 1).drop_last() =~= spaced.take(i as int));
        assert(spaced.take(i + 1).last() == d);
        if !char_is_control(d) {
            out.push(d);
        }
        i = i + 1;
    }
    assert(spaced.take(n as int) =~= spaced);
    proof {
        lemma_without_controls_clean(spaced);
    }
    string_from_chars(&out)
}

/// The banner that a service's greeting `bytes` shows: the bytes decoded
/// (invalid sequences replaced), trimmed, line breaks turned into spaces,
/// control characters removed.
pub fn sanitize_banner(bytes: &[u8]) -> (res: String)
    ensures
        res@ == sanitize(utf8_lossy(bytes@)),
        res@.len() <= bytes@.len(),
        forall|i: int| 0 <= i < res@.len() ==> !is_control(#[trigger] res@[i]),
{
    let text = decode_lossy(bytes);
    proof {
        lemma_sanitize_shortens(text@);
    }
    sanitize_text(text.as_str())
}

proof fn lemma_trim_start_shortens(s: Seq<char>)
    ensures
        trim_start(s).len() <= s.len(),
    decreases s.len(),
{
    if s.len() > 0 && is_whitespace(s[0]) {
        lemma_trim_start_shortens(s.drop_first());
    }
}

proof fn lemma_trim_end_shortens(s: Seq<char>)
    ensures
        trim_end(s).len() <= s.len(),
    decreases s.len(),
{
    if s.len() > 0 && is_whitespace(s.last()) {
        lemma_trim_end_shortens(s.drop_last());
    }
}

proof fn lemma_without_controls_shortens(s: Seq<char>)
    ensures
        without_controls(s).len() <= s.len(),
    decreases s.len(),
{
    if s.len() > 0 {
        lemma_without_controls_shortens(s.drop_last());
    }
}

/// Sanitizing never lengthens a text.
proof fn lemma_sanitize_shortens(s: Seq<char>)
    ensures
        sanitize(s).len() <= s.len(),
{
    lemma_trim_start_shortens(s);
    lemma_trim_end_shortens(trim_start(s));
    lemma_without_controls_shortens(spaces_for_line_breaks(trim(s)));
}

/// The first line of `s`, as `str::lines` gives it: up to the first line
/// feed, without a carriage return just before it; none for an empty text.
pub open spec fn first_line(s: Seq<char>) -> Option<Seq<char>> {
    if s.len() == 0 {
        None
    } else {
        match find_char(s, '\n') {
            Some(k) => {
                let line = s.take(k);
                if line.len() > 0 && line.last() == '\r' {
                    Some(line.drop_last())
                } else {
                    Some(line)
                }
            },
            None => Some(s),
        }
    }
}

/// Whether `pat` occurs in `s`.
pub open spec fn occurs_in(pat: Seq<char>, s: Seq<char>) -> bool {
    exists|i: int| 0 <= i && i + pat.len() <= s.len() && #[trigger] s.subrange(i, i + pat.len()) == pat
}

/// The ports on which a service is asked with an HTTP request.
pub open spec fn is_http_port(port: u16) -> bool {
    port == 80 || port == 8080 || port == 443 || port == 3000 || port == 5000 || port == 8000
}

/// The request sent to an HTTP service.
pub open spec fn http_request() -> Seq<char> {
    "GET / HTTP/1.1\r\nHost: localhost\r\nConnection: close\r\n\r\n"@
}

/// The request sent to a Redis service.
pub open spec fn redis_request() -> Seq<char> {
    "PING\r\n"@
}

/// What to do after the greeting of a service was read.
#[derive(Debug)]
pub enum BannerStep {
    /// The banner is known (or known to be absent).
    Finish(Option<String>),
    /// Send `request`, then read a reply, waiting at most `timeout_ms`.
    Probe { request: &'static str, timeout_ms: u64 },
}

/// The next step of banner grabbing on `port`, once the service's greeting
/// has been read (`greeting` is empty when nothing came in time): a greeting
/// is the banner; else HTTP ports get an HTTP request, port 6379 a Redis
/// `PING`, ports 3306 and 5432 are named MySQL and PostgreSQL, and any other
/// port has no banner.
pub fn banner_after_greeting(port: u16, greeting: &[u8]) -> (res: BannerStep)
    ensures
        greeting@.len() > 0 ==> (res matches BannerStep::Finish(Some(s)) && s@ == sanitize(
            utf8_lossy(greeting@),
        )),
        greeting@.len() == 0 ==> (if is_http_port(port) {
            res matches BannerStep::Probe { request, timeout_ms } && request@ == http_request()
                && timeout_ms == PROBE_TIMEOUT_MS
        } else if port == 6379 {
            res matches BannerStep::Probe { request, timeout_ms } && request@ == redis_request()
                && timeout_ms == PROBE_TIMEOUT_MS
        } else if port == 3306 {
            res matches BannerStep::Finish(Some(s)) && s@ == "MySQL"@
        } else if port == 5432 {
            res matches BannerStep::Finish(Some(s)) && s@ == "PostgreSQL"@
        } else {
            res matches BannerStep::Finish(None)
        }),
{
    if greeting.len() > 0 {
        return BannerStep::Finish(Some(sanitize_banner(greeting)));
    }
    if port == 80 || port == 8080 || port == 443 || port == 3000 || port == 5000 || port == 8000 {
        BannerStep::Probe {
            request: "GET / HTTP/1.1\r\nHost: localhost\r\nConnection: close\r\n\r\n",
            timeout_ms: PROBE_TIMEOUT_MS,
        }
    } else if port == 6379 {
        BannerStep::Probe { request: "PING\r\n", timeout_ms: PROBE_TIMEOUT_MS }
    } else if port == 3306 {
        BannerStep::Finish(Some(String::from_str("MySQL")))
    } else if port == 5432 {
        BannerStep::Finish(Some(String::from_str("PostgreSQL")))
    } else {
        BannerStep::Finish(None)
    }
}

/// The first line of the reply text `text`, as `str::lines` gives it.
pub fn status_line(text: &str) -> (res: Option<String>)
    ensures
        match first_line(text@) {
            Some(l) => res matches Some(s) && s@ == l,
            None => res is None,
        },
{
    let cs = chars_of(text);
    let n = cs.len();
    if n == 0 {
        return None;
    }
    let mut k: usize = 0;
    while k < n && cs[k] != '\n'
        invariant
            n == cs@.len(),
            cs@ == text@,
            k <= n,
            forall|j: int| 0 <= j < k ==> cs@[j] != '\n',
        decreases n - k,
    {
        k = k + 1;
    }
    proof {
        lemma_find_char_first(cs@, '\n', k as int);
    }
    let mut end = k;
    if k < n && k > 0 && cs[k - 1] == '\r' {
        end = k - 1;
    }
    let line = crate::text::copy_range(&cs, 0, end);
    proof {
        if k < n {
            if end < k {
                assert(cs@.take(k as int).drop_last() =~= cs@.subrange(0, end as int));
            } else {
                assert(cs@.take(k as int) =~= cs@.subrange(0, k as int));
            }
        } else {
            assert(cs@ =~= cs@.subrange(0, k as int));
        }
    }
    Some(string_from_chars(&line))
}

proof fn lemma_find_char_first(s: Seq<char>, c: char, k: int)
    requires
        0 <= k <= s.len(),
        forall|j: int| 0 <= j < k ==> s[j] != c,
        k < s.len() ==> s[k] == c,
    ensures
        k < s.len() ==> find_char(s, c) == Some(k),
        k == s.len() ==> find_char(s, c) is None,
    decreases k,
{
    if k > 0 {
        assert forall|j: int| 0 <= j < k - 1 implies s.drop_first()[j] != c by {
            assert(s.drop_first()[j] == s[j + 1]);
        }
        lemma_find_char_first(s.drop_first(), c, k - 1);
    } else if s.len() == 0 {
    }
}

/// Whether the text `pat` occurs in the text `s`.
pub fn text_contains(s: &Vec<char>, pat: &Vec<char>) -> (res: bool)
    ensures
        res == occurs_in(pat@, s@),
{
    let n = s.len();
    let m = pat.len();
    if m > n {
        return false;
    }
    let mut i: usize = 0;
    while i <= n - m
        invariant
            n == s@.len(),
            m == pat@.len(),
            m <= n,
            i <= n - m + 1,
            forall|q: int| 0 <= q < i ==> #[trigger] s@.subrange(q, q + m) != pat@,
        decreases n - m + 1 - i,
    {
        let mut j: usize = 0;
        while j < m && s[i + j] == pat[j]
            invariant
                n == s@.len(),
                m == pat@.len(),
                i + m <= n,
                j <= m,
                forall|q: int| 0 <= q < j ==> s@[i + q] == pat@[q],
            decreases m - j,
        {
            j = j + 1;
        }
        if j == m {
            assert(s@.subrange(i as int, i + m) =~= pat@);
            return true;
        }
        assert(s@.subrange(i as int, i + m)[j as int] != pat@[j as int]);
        i = i + 1;
    }
    false
}

/// What a Redis service's reply text shows: `Redis` where it holds `+PONG`.
pub fn redis_banner(text: &str) -> (res: Option<String>)
    ensures
        occurs_in("+PONG"@, text@) ==> (res matches Some(s) && s@ == "Redis"@),
        !occurs_in("+PONG"@, text@) ==> res is None,
{
    let cs = chars_of(text);
    let pat = chars_of("+PONG");
    if text_contains(&cs, &pat) {
        Some(String::from_str("Redis"))
    } else {
        None
    }
}

/// The banner that the reply `reply` to the probe request on `port` shows
/// (`reply` is empty when nothing came in time): for an HTTP port the first
/// line of the decoded reply, for port 6379 `Redis` where the decoded reply
/// holds `+PONG`, and nothing otherwise.
pub fn banner_from_reply(port: u16, reply: &[u8]) -> (res: Option<String>)
    ensures
        reply@.len() == 0 ==> res is None,
        reply@.len() > 0 && is_http_port(port) ==> res is Some,
        reply@.len() > 0 && is_http_port(port) ==> match first_line(utf8_lossy(reply@)) {
            Some(l) => res matches Some(s) && s@ == l,
            None => res is None,
        },
        reply@.len() > 0 && !is_http_port(port) && port == 6379 ==> (if occurs_in(
            "+PONG"@,
            utf8_lossy(reply@),
        ) {
            res matches Some(s) && s@ == "Redis"@
        } else {
            res is None
        }),
        !is_http_port(port) && port != 6379 ==> res is None,
{
    if reply.len() == 0 {
        return None;
    }
    if port == 80 || port == 8080 || port == 443 || port == 3000 || port == 5000 || port == 8000 {
        let text = decode_lossy(reply);
        status_line(text.as_str())
    } else if port == 6379 {
        let text = decode_lossy(reply);
        redis_banner(text.as_str())
    } else {
        None
    }
}

/// The ports tried, in order, to find out whether a host is up.
pub open spec fn discovery_ports() -> Seq<u16> {
    seq![80u16, 443, 22, 21, 3389, 135, 445, 139, 5354]
}

/// The `i`-th port tried during host discovery, if there is one.
pub fn discovery_port(i: usize) -> (res: Option<u16>)
    ensures
        i < discovery_ports().len() ==> res == Some(discovery_ports()[i as int]),
        i >= discovery_ports().len() ==> res is None,
{
    match i {
        0 => Some(80),
        1 => Some(443),
        2 => Some(22),
        3 => Some(21),
        4 => Some(3389),
        5 => Some(135),
        6 => Some(445),
        7 => Some(139),
        8 => Some(5354),
        _ => None,
    }
}

/// What host discovery does next for one host.
#[derive(Clone, Copy, Debug, PartialEq, Eq, Structural)]
pub enum DiscoveryStep {
    /// Try to connect to this port (within the connection timeout).
    Probe(u16),
    /// The host is done.
    Report(HostInfo),
}

/// The next step of host discovery for `ip`, after `tried` connection
/// attempts, the last of which succeeded where `last_connected`: a success
/// reports the host up, else the next discovery port is tried, and when all
/// were tried the host is reported down.
pub open spec fn discovery_next(ip: IpAddress, tried: nat, last_connected: bool) -> DiscoveryStep {
    if last_connected {
        DiscoveryStep::Report(HostInfo { ip, is_up: true })
    } else if tried < discovery_ports().len() {
        DiscoveryStep::Probe(discovery_ports()[tried as int])
    } else {
        DiscoveryStep::Report(HostInfo { ip, is_up: false })
    }
}

/// The next step of host discovery for `ip`.
pub fn discovery_step(ip: IpAddress, tried: usize, last_connected: bool) -> (res: DiscoveryStep)
    ensures
        res == discovery_next(ip, tried as nat, last_connected),
{
    if last_connected {
        return DiscoveryStep::Report(HostInfo { ip, is_up: true });
    }
    match discovery_port(tried) {
        Some(port) => DiscoveryStep::Probe(port),
        None => DiscoveryStep::Report(HostInfo { ip, is_up: false }),
    }
}

/// The ports that host discovery of `ip` tries and its report, where the
/// `k`-th attempt succeeds exactly when `outcomes[k]`, from the state after
/// `tried` attempts.
pub open spec fn discovery_run(ip: IpAddress, outcomes: Seq<bool>, tried: nat, last_connected: bool) -> (Seq<u16>, HostInfo)
    decreases discovery_ports().len() - tried,
{
    match discovery_next(ip, tried, last_connected) {
        DiscoveryStep::Report(info) => (seq![], info),
        DiscoveryStep::Probe(port) => {
            let (rest, info) = discovery_run(ip, outcomes, tried + 1, outcomes[tried as int]);
            (seq![port] + rest, info)
        },
    }
}

proof fn lemma_discovery_run_from(ip: IpAddress, outcomes: Seq<bool>, tried: nat)
    requires
        outcomes.len() == discovery_ports().len(),
        tried <= discovery_ports().len(),
        forall|k: int| 0 <= k < tried ==> !outcomes[k],
    ensures
        ({
            let (probes, info) = discovery_run(ip, outcomes, tried, false);
            &&& info.ip == ip
            &&& tried + probes.len() <= discovery_ports().len()
            &&& probes == discovery_ports().subrange(tried as int, (tried + probes.len()) as int)
            &&& info.is_up ==> probes.len() > 0 && outcomes[tried + probes.len() - 1]
                && forall|k: int| 0 <= k < tried + probes.len() - 1 ==> !outcomes[k]
            &&& !info.is_up ==> tried + probes.len() == discovery_ports().len()
                && forall|k: int| 0 <= k < discovery_ports().len() ==> !outcomes[k]
        }),
    decreases discovery_ports().len() - tried,
{
    if tried < discovery_ports().len() {
        let o = outcomes[tried as int];
        if o {
            let (rest, info) = discovery_run(ip, outcomes, tried + 1, true);
            assert(rest.len() == 0);
            assert(discovery_ports().subrange(tried as int, (tried + 1) as int) =~= seq![discovery_ports()[tried as int]]);
        } else {
            lemma_discovery_run_from(ip, outcomes, tried + 1);
            let (rest, info) = discovery_run(ip, outcomes, tried + 1, false);
            assert(discovery_ports().subrange(tried as int, (tried + 1 + rest.len()) as int) =~= seq![
                discovery_ports()[tried as int],
            ] + discovery_ports().subrange((tried + 1) as int, (tried + 1 + rest.len()) as int));
        }
    } else {
        assert(discovery_ports().subrange(tried as int, tried as int) =~= Seq::<u16>::empty());
    }
}

/// Host discovery of a host, driven step by step by `discovery_step` from
/// its start (no attempt yet) with the outcomes of its attempts, tries the
/// discovery ports in order and stops at the first that accepts a
/// connection; it reports the host up exactly when one of them did, and
/// tries all of them otherwise.
pub proof fn lemma_discovery_stops_at_first_success(ip: IpAddress, outcomes: Seq<bool>)
    requires
        outcomes.len() == discovery_ports().len(),
    ensures
        ({
            let (probes, info) = discovery_run(ip, outcomes, 0, false);
            &&& info.ip == ip
            &&& probes == discovery_ports().take(probes.len() as int)
            &&& info.is_up == (exists|k: int| 0 <= k < outcomes.len() && outcomes[k])
            &&& info.is_up ==> outcomes[probes.len() - 1] && forall|k: int| 0 <= k < probes.len() - 1 ==> !outcomes[k]
            &&& !info.is_up ==> probes == discovery_ports()
        }),
{
    lemma_discovery_run_from(ip, outcomes, 0);
    let (probes, info) = discovery_run(ip, outcomes, 0, false);
    assert(discovery_ports().subrange(0, probes.len() as int) =~= discovery_ports().take(probes.len() as int));
    if !info.is_up {
        assert(discovery_ports().take(probes.len() as int) =~= discovery_ports());
    }
}

/// Whether a banner is grabbed after a TCP connection attempt: only when
/// service detection was asked for and the connection succeeded.
pub fn grabs_banner(service_detection: bool, connected: bool) -> (res: bool)
    ensures
        res == (service_detection && connected),
{
    service_detection && connected
}

/// What a TCP connection attempt to `ip`:`port` found: an open port (with
/// the banner grabbed, if any) when it connected, nothing otherwise.
pub fn tcp_probe_result(ip: IpAddress, port: u16, connected: bool, banner: Option<String>) -> (res:
    Option<ScanResult>)
    ensures
        connected ==> (res matches Some(r) && r.ip == ip && r.port == port && r.protocol
            == Protocol::Tcp && r.state == PortState::Open && r.banner == banner),
        !connected ==> res is None,
{
    if connected {
        Some(ScanResult { ip, port, protocol: Protocol::Tcp, state: PortState::Open, banner })
    } else {
        None
    }
}

/// How a UDP probe (an empty datagram, then one read within the timeout)
/// ended.
#[derive(Clone, Copy, Debug, PartialEq, Eq, Structural)]
pub enum UdpOutcome {
    /// No socket could be bound or connected to the target.
    NoSocket,
    /// A reply came back.
    Reply,
    /// The read failed (such as a refusal reported by ICMP).
    ReceiveError,
    /// Nothing came back in time.
    TimedOut,
}

/// What a UDP probe of `ip`:`port` found: a reply means open, silence means
/// open or filtered, and anything else means nothing to report.
pub fn udp_probe_result(ip: IpAddress, port: u16, outcome: UdpOutcome) -> (res: Option<ScanResult>)
    ensures
        outcome == UdpOutcome::Reply ==> res == Some(
            ScanResult { ip, port, protocol: Protocol::Udp, state: PortState::Open, banner: None },
        ),
        outcome == UdpOutcome::TimedOut ==> res == Some(
            ScanResult {
                ip,
                port,
                protocol: Protocol::Udp,
                state: PortState::OpenOrFiltered,
                banner: None,
            },
        ),
        outcome == UdpOutcome::NoSocket || outcome == UdpOutcome::ReceiveError ==> res is None,
{
    match outcome {
        UdpOutcome::Reply => Some(
            ScanResult { ip, port, protocol: Protocol::Udp, state: PortState::Open, banner: None },
        ),
        UdpOutcome::TimedOut => Some(
            ScanResult {
                ip,
                port,
                protocol: Protocol::Udp,
                state: PortState::OpenOrFiltered,
                banner: None,
            },
        ),
        _ => None,
    }
}

/// The local address a UDP socket is bound to before probing `ip`: any
/// address of the same family, any port.
pub fn udp_bind_address(ip: &IpAddress) -> (res: &'static str)
    ensures
        ip is V4 ==> res@ == "0.0.0.0:0"@,
        ip is V6 ==> res@ == "[::]:0"@,
{
    match ip {
        IpAddress::V4(_) => "0.0.0.0:0",
        IpAddress::V6(_) => "[::]:0",
    }
}

} // verus!

verus! {

/// The HTTP banner is the whole first line of the reply, whatever its
/// length: the text before the first line feed, without a carriage return
/// just before it; a text without a line feed is a single line.
pub proof fn lemma_first_line_is_the_whole_line(line: Seq<char>, rest: Seq<char>)
    requires
        forall|i: int| 0 <= i < line.len() ==> line[i] != '\n',
    ensures
        first_line(line + seq!['\r', '\n'] + rest) == Some(line),
        line.len() == 0 || line.last() != '\r' ==> first_line(line + seq!['\n'] + rest) == Some(line),
        line.len() > 0 ==> first_line(line) == Some(line),
{
    let s1 = line + seq!['\r', '\n'] + rest;
    assert forall|j: int| 0 <= j < line.len() + 1 implies s1[j] != '\n' by {
        if j < line.len() {
            assert(s1[j] == line[j]);
        }
    }
    assert(s1[line.len() + 1int] == '\n');
    lemma_find_char_first(s1, '\n', line.len() + 1int);
    assert(s1.take(line.len() + 1int).drop_last() =~= line);
    assert(s1.take(line.len() + 1int).last() == '\r');
    let s2 = line + seq!['\n'] + rest;
    assert forall|j: int| 0 <= j < line.len() implies s2[j] != '\n' by {
        assert(s2[j] == line[j]);
    }
    assert(s2[line.len() as int] == '\n');
    lemma_find_char_first(s2, '\n', line.len() as int);
    assert(s2.take(line.len() as int) =~= line);
    lemma_find_char_first(line, '\n', line.len() as int);
}

proof fn lemma_without_controls_keeps_clean(s: Seq<char>)
    requires
        forall|i: int| 0 <= i < s.len() ==> !is_control(#[trigger] s[i]),
    ensures
        without_controls(s) == s,
    decreases s.len(),
{
    if s.len() > 0 {
        assert(!is_control(s[s.len() - 1]));
        lemma_without_controls_keeps_clean(s.drop_last());
        assert(s.drop_last().push(s.last()) =~= s);
    }
}

/// A greeting that is already clean (no control characters, no whitespace
/// at either end) is shown as it is, whatever its length.
pub proof fn lemma_clean_text_is_kept_whole(s: Seq<char>)
    requires
        s.len() > 0,
        !is_whitespace(s[0]),
        !is_whitespace(s.last()),
        forall|i: int| 0 <= i < s.len() ==> !is_control(#[trigger] s[i]),
    ensures
        sanitize(s) == s,
{
    assert(trim_start(s) == s);
    assert(trim_end(s) == s);
    assert forall|i: int| 0 <= i < s.len() implies #[trigger] s[i] != '\n' && s[i] != '\r' by {
        assert(!is_control(s[i]));
    }
    assert(spaces_for_line_breaks(s) =~= s);
    lemma_without_controls_keeps_clean(s);
}

/// The number of characters of `s` that sanitizing drops: the control
/// characters other than line feeds and carriage returns (which become
/// spaces).
pub open spec fn dropped_count(s: Seq<char>) -> nat
    decreases s.len(),
{
    if s.len() == 0 {
        0
    } else {
        dropped_count(s.drop_last()) + if is_control(s.last()) && s.last() != '\n' && s.last() != '\r' {
            1nat
        } else {
            0nat
        }
    }
}

proof fn lemma_sanitized_length(t: Seq<char>)
    ensures
        without_controls(spaces_for_line_breaks(t)).len() + dropped_count(t) == t.len(),
    decreases t.len(),
{
    if t.len() > 0 {
        lemma_sanitized_length(t.drop_last());
        assert(spaces_for_line_breaks(t).drop_last() =~= spaces_for_line_breaks(t.drop_last()));
        let c = t.last();
        assert(spaces_for_line_breaks(t).last() == if c == '\n' || c == '\r' { ' ' } else { c });
    }
}

/// Sanitizing drops nothing but control characters: the banner has one
/// character for each character of the trimmed text, except the control
/// characters other than line breaks.
pub proof fn lemma_sanitize_drops_only_controls(s: Seq<char>)
    ensures
        sanitize(s).len() + dropped_count(trim(s)) == trim(s).len(),
{
    lemma_sanitized_length(trim(s));
}

} // verus!
