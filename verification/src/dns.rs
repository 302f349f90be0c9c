//! DNS diagnosis: building an A query, reading the header of a reply, and
//! interpreting the answers of system and public resolvers.

use vstd::prelude::*;
use crate::addr::{parse_ip_range, spec_parse_ip, IpAddr};
use crate::check::{outcome_is, CheckOutcome};
use crate::target::{Target, TargetView};
use crate::text::{
    chars_of, collect_some, find_byte, index_of, last_index_of, lemma_collect_some_step,
    line_ranges, lines, range_starts_with, rfind_char, split_on, starts_with, trim, trim_range,
};
use vstd::string::StringSliceAdditionalSpecFns;

verus! {

/// The fixed transaction id of the diagnostic queries (enough for a
/// diagnosis; no protection against spoofing).
pub const DNS_QUERY_ID: u16 = 0x7A7A;

/// The 12-byte header of a query: `id`, flags 0x0100 (recursion desired),
/// QDCOUNT = 1, AN/NS/AR counts 0.
pub open spec fn query_header(id: u16) -> Seq<u8> {
    seq![(id / 256) as u8, (id % 256) as u8, 0x01u8, 0x00u8, 0x00u8, 0x01u8, 0u8, 0u8, 0u8, 0u8, 0u8, 0u8]
}

/// QNAME: every non-empty label as its length byte (the length taken modulo
/// 256) followed by its bytes; empty labels are skipped.
pub open spec fn encode_labels(labels: Seq<Seq<u8>>) -> Seq<u8>
    decreases labels.len(),
{
    if labels.len() == 0 {
        seq![]
    } else {
        let l = labels[0];
        let head = if l.len() == 0 {
            Seq::<u8>::empty()
        } else {
            seq![(l.len() % 256) as u8] + l
        };
        head + encode_labels(labels.drop_first())
    }
}

/// The terminator of QNAME, then QTYPE = 1 (A) and QCLASS = 1 (IN).
pub open spec fn query_trailer() -> Seq<u8> {
    seq![0u8, 0x00u8, 0x01u8, 0x00u8, 0x01u8]
}

/// The A query for the name whose UTF-8 bytes are `name`, with transaction id
/// `id` (RFC 1035): header, the labels between the dots, terminator, QTYPE, QCLASS.
pub open spec fn spec_query(name: Seq<u8>, id: u16) -> Seq<u8> {
    query_header(id) + encode_labels(split_on(name, 0x2Eu8)) + query_trailer()
}

proof fn lemma_encode_labels_push(labels: Seq<Seq<u8>>, l: Seq<u8>)
    ensures
        encode_labels(labels.push(l)) == encode_labels(labels) + (if l.len() == 0 {
            Seq::<u8>::empty()
        } else {
            seq![(l.len() % 256) as u8] + l
        }),
    decreases labels.len(),
{
    if labels.len() == 0 {
        assert(labels.push(l).drop_first() =~= Seq::<Seq<u8>>::empty());
        assert(encode_labels(Seq::<Seq<u8>>::empty()) =~= Seq::<u8>::empty());
    } else {
        lemma_encode_labels_push(labels.drop_first(), l);
        assert(labels.push(l).drop_first() =~= labels.drop_first().push(l));
        assert(labels.push(l)[0] == labels[0]);
    }
}

proof fn lemma_encode_labels_append(a: Seq<Seq<u8>>, b: Seq<Seq<u8>>)
    ensures
        encode_labels(a + b) == encode_labels(a) + encode_labels(b),
    decreases a.len(),
{
    if a.len() == 0 {
        assert(a + b =~= b);
        assert(encode_labels(a) =~= Seq::<u8>::empty());
    } else {
        lemma_encode_labels_append(a.drop_first(), b);
        assert((a + b).drop_first() =~= a.drop_first() + b);
        assert((a + b)[0] == a[0]);
    }
}

/// Appends the encoding of one label `name[lo..hi]`.
fn push_label(q: &mut Vec<u8>, name: &[u8], lo: usize, hi: usize)
    requires
        lo <= hi <= name@.len(),
    ensures
        final(q)@ == old(q)@ + encode_labels(seq![name@.subrange(lo as int, hi as int)]),
{
    let ghost l = name@.subrange(lo as int, hi as int);
    let ghost start = q@;
    assert(seq![l].drop_first() =~= Seq::<Seq<u8>>::empty());
    assert(encode_labels(Seq::<Seq<u8>>::empty()) =~= Seq::<u8>::empty());
    if hi > lo {
        let len: u8 = ((hi - lo) % 256) as u8;
        q.push(len);
        let mut i = lo;
        while i < hi
            invariant
                lo <= i <= hi <= name@.len(),
                q@ == start + seq![len] + name@.subrange(lo as int, i as int),
            decreases hi - i,
        {
            q.push(name[i]);
            i = i + 1;
            assert(q@ =~= start + seq![len] + name@.subrange(lo as int, i as int));
        }
        assert(q@ =~= start + encode_labels(seq![l]));
    } else {
        assert(q@ =~= start + encode_labels(seq![l]));
    }
}

/// Builds the DNS query of type A for `name` with transaction id `id`.
///
/// Layout (RFC 1035): a 12-byte header (id, flags 0x0100 = recursion
/// desired, QDCOUNT = 1, other counts 0), then QNAME (each non-empty label
/// between dots as its length byte and its bytes), 0x00, QTYPE = 1 (A) and
/// QCLASS = 1 (IN).
#[verifier::rlimit(20)]
pub fn build_query(name: &str, id: u16) -> (q: Vec<u8>)
    ensures
        q@ == spec_query(name.spec_bytes(), id),
{
    let bytes = name.as_bytes();
    let n = bytes.len();
    let ghost nb = bytes@;
    let mut q: Vec<u8> = Vec::with_capacity(32);
    q.push((id / 256) as u8);
    q.push((id % 256) as u8);
    q.push(0x01);
    q.push(0x00);
    q.push(0x00);
    q.push(0x01);
    q.push(0);
    q.push(0);
    q.push(0);
    q.push(0);
    q.push(0);
    q.push(0);
    assert(q@ =~= query_header(id));
    let mut pos: usize = 0;
    let ghost mut done: Seq<Seq<u8>> = Seq::empty();
    assert(nb.subrange(0, n as int) =~= nb);
    assert(done + split_on(nb, 0x2Eu8) =~= split_on(nb, 0x2Eu8));
    assert(encode_labels(done) =~= Seq::<u8>::empty());
    assert(q@ =~= query_header(id) + encode_labels(done));
    loop
        invariant_except_break
            q@ == query_header(id) + encode_labels(done),
        invariant
            pos <= n == nb.len(),
            bytes@ == nb,
            split_on(nb, 0x2Eu8) == done + split_on(nb.subrange(pos as int, n as int), 0x2Eu8),
        ensures
            q@ == query_header(id) + encode_labels(split_on(nb, 0x2Eu8)),
        decreases n - pos,
    {
        let ghost rest = nb.subrange(pos as int, n as int);
        match find_byte(bytes, pos, n, 0x2E) {
            Some(j) => {
                push_label(&mut q, bytes, pos, j);
                proof {
                    let piece = nb.subrange(pos as int, j as int);
                    assert(rest.take(j - pos) =~= piece);
                    assert(rest.skip(j - pos + 1) =~= nb.subrange(j + 1, n as int));
                    assert(split_on(rest, 0x2Eu8) == seq![piece] + split_on(nb.subrange(j + 1, n as int), 0x2Eu8));
                    lemma_encode_labels_append(done, seq![piece]);
                    assert(done + split_on(rest, 0x2Eu8) =~= done.push(piece) + split_on(nb.subrange(j + 1, n as int), 0x2Eu8));
                    assert(done.push(piece) =~= done + seq![piece]);
                    done = done.push(piece);
                }
                pos = j + 1;
            },
            None => {
                push_label(&mut q, bytes, pos, n);
                proof {
                    assert(split_on(rest, 0x2Eu8) == seq![rest]);
                    lemma_encode_labels_append(done, seq![rest]);
                    assert(q@ =~= query_header(id) + encode_labels(split_on(nb, 0x2Eu8)));
                }
                break;
            },
        }
    }
    q.push(0);
    q.push(0x00);
    q.push(0x01);
    q.push(0x00);
    q.push(0x01);
    assert(q@ =~= spec_query(nb, id));
    q
}

/// Header fields of a DNS reply.
#[derive(Debug, Clone, Copy, PartialEq, Eq, Structural)]
pub struct DnsAnswer {
    pub id: u16,
    pub rcode: u8,
    pub ancount: u16,
}

/// The header of a reply: `None` when the buffer is shorter than 12 bytes or
/// is no reply (the QR bit, the top bit of byte 2, is 0); otherwise the id
/// (bytes 0-1, big-endian), RCODE (the low 4 bits of byte 3) and ANCOUNT
/// (bytes 6-7, big-endian).
pub open spec fn spec_parse_response(buf: Seq<u8>) -> Option<DnsAnswer> {
    if buf.len() < 12 || buf[2] < 128 {
        None
    } else {
        Some(
            DnsAnswer {
                id: (buf[0] * 256 + buf[1]) as u16,
                rcode: (buf[3] % 16) as u8,
                ancount: (buf[6] * 256 + buf[7]) as u16,
            },
        )
    }
}

/// Reads the header of a DNS reply. `None` if the buffer is shorter than 12
/// bytes or is not a reply (QR = 0).
pub fn parse_response(buf: &[u8]) -> (r: Option<DnsAnswer>)
    ensures
        r == spec_parse_response(buf@),
{
    if buf.len() < 12 {
        return None;
    }
    if buf[2] < 128 {
        return None;
    }
    let id: u16 = (buf[0] as u16) * 256 + (buf[1] as u16);
    let rcode: u8 = buf[3] % 16;
    let ancount: u16 = (buf[6] as u16) * 256 + (buf[7] as u16);
    Some(DnsAnswer { id, rcode, ancount })
}

/// The outcome of one query to one server.
#[derive(Debug, Clone, Copy, PartialEq, Eq, Structural)]
pub enum QueryOutcome {
    /// RCODE = 0 and at least one answer.
    Resolved,
    /// RCODE = 3.
    NxDomain,
    /// Timeout, socket error or any other reply.
    NoResponse,
}

/// The verdict of the DNS stage.
#[derive(Debug, Clone, Copy, PartialEq, Eq, Structural)]
pub enum DnsVerdict {
    Healthy,
    SystemBrokenPublicWorks,
    Blocked,
    Nxdomain,
}

impl DnsVerdict {
    /// Whether the DNS stage passed (only `Healthy`).
    pub fn is_ok(&self) -> (r: bool)
        ensures
            r == (*self == DnsVerdict::Healthy),
    {
        match self {
            DnsVerdict::Healthy => true,
            _ => false,
        }
    }
}

/// How the outcomes of the system resolvers and of the public resolvers
/// read: a system answer means DNS works; failing that a public answer means
/// the system resolver is broken; silence everywhere means blocked; an
/// NXDOMAIN means the name does not exist.
pub open spec fn spec_classify_dns(system: Seq<QueryOutcome>, public: Seq<QueryOutcome>) -> DnsVerdict {
    let all = system + public;
    if system.contains(QueryOutcome::Resolved) {
        DnsVerdict::Healthy
    } else if public.contains(QueryOutcome::Resolved) {
        DnsVerdict::SystemBrokenPublicWorks
    } else if forall|i: int| 0 <= i < all.len() ==> all[i] == QueryOutcome::NoResponse {
        DnsVerdict::Blocked
    } else if all.contains(QueryOutcome::NxDomain) {
        DnsVerdict::Nxdomain
    } else {
        DnsVerdict::Blocked
    }
}

/// Whether `o` occurs in `s`.
fn contains_outcome(s: &[QueryOutcome], o: QueryOutcome) -> (r: bool)
    ensures
        r == s@.contains(o),
{
    let mut i: usize = 0;
    while i < s.len()
        invariant
            i <= s@.len(),
            forall|k: int| 0 <= k < i ==> s@[k] != o,
        decreases s@.len() - i,
    {
        if s[i] == o {
            assert(s@[i as int] == o);
            return true;
        }
        i = i + 1;
    }
    false
}

/// Whether every outcome in `s` is `NoResponse`.
fn all_silent(s: &[QueryOutcome]) -> (r: bool)
    ensures
        r == forall|k: int| 0 <= k < s@.len() ==> s@[k] == QueryOutcome::NoResponse,
{
    let mut i: usize = 0;
    while i < s.len()
        invariant
            i <= s@.len(),
            forall|k: int| 0 <= k < i ==> s@[k] == QueryOutcome::NoResponse,
        decreases s@.len() - i,
    {
        if s[i] != QueryOutcome::NoResponse {
            return false;
        }
        i = i + 1;
    }
    true
}

/// Interprets the outcomes of the queries to the system and to the public
/// resolvers.
#[verifier::rlimit(20)]
pub fn classify_dns(system: &[QueryOutcome], public: &[QueryOutcome]) -> (v: DnsVerdict)
    ensures
        v == spec_classify_dns(system@, public@),
{
    let ghost all = system@ + public@;
    if contains_outcome(system, QueryOutcome::Resolved) {
        return DnsVerdict::Healthy;
    }
    if contains_outcome(public, QueryOutcome::Resolved) {
        return DnsVerdict::SystemBrokenPublicWorks;
    }
    let silent = all_silent(system) && all_silent(public);
    assert(silent == forall|i: int| 0 <= i < all.len() ==> all[i] == QueryOutcome::NoResponse) by {
        if silent {
            assert forall|i: int| 0 <= i < all.len() implies all[i] == QueryOutcome::NoResponse by {
                if i >= system@.len() {
                    assert(all[i] == public@[i - system@.len()]);
                }
            }
        } else if !all_silent_spec(system@) {
            let k = choose|k: int| 0 <= k < system@.len() && system@[k] != QueryOutcome::NoResponse;
            assert(all[k] == system@[k]);
        } else {
            let k = choose|k: int| 0 <= k < public@.len() && public@[k] != QueryOutcome::NoResponse;
            assert(all[k + system@.len()] == public@[k]);
        }
    }
    if silent {
        return DnsVerdict::Blocked;
    }
    let nx = contains_outcome(system, QueryOutcome::NxDomain) || contains_outcome(public, QueryOutcome::NxDomain);
    assert(nx == all.contains(QueryOutcome::NxDomain)) by {
        if nx {
            if system@.contains(QueryOutcome::NxDomain) {
                let k = choose|k: int| 0 <= k < system@.len() && system@[k] == QueryOutcome::NxDomain;
                assert(all[k] == system@[k]);
            } else {
                let k = choose|k: int| 0 <= k < public@.len() && public@[k] == QueryOutcome::NxDomain;
                assert(all[k + system@.len()] == public@[k]);
            }
        } else if all.contains(QueryOutcome::NxDomain) {
            let k = choose|k: int| 0 <= k < all.len() && all[k] == QueryOutcome::NxDomain;
            if k < system@.len() {
                assert(system@[k] == all[k]);
            } else {
                assert(public@[k - system@.len()] == all[k]);
            }
        }
    }
    if nx {
        return DnsVerdict::Nxdomain;
    }
    DnsVerdict::Blocked
}

spec fn all_silent_spec(s: Seq<QueryOutcome>) -> bool {
    forall|k: int| 0 <= k < s.len() ==> s[k] == QueryOutcome::NoResponse
}

/// What a reply (or its absence) to a diagnostic query means: an answer to
/// our id with RCODE 0 and answers is `Resolved`; RCODE 3 is `NxDomain`;
/// anything else, or no reply at all, is `NoResponse`.
pub open spec fn spec_query_outcome(reply: Option<Seq<u8>>) -> QueryOutcome {
    match reply {
        None => QueryOutcome::NoResponse,
        Some(buf) => match spec_parse_response(buf) {
            Some(a) => if a.id == DNS_QUERY_ID && a.rcode == 0 && a.ancount > 0 {
                QueryOutcome::Resolved
            } else if a.rcode == 3 {
                QueryOutcome::NxDomain
            } else {
                QueryOutcome::NoResponse
            },
            None => QueryOutcome::NoResponse,
        },
    }
}

/// Interprets the datagram received for a diagnostic query; `None` when no
/// reply arrived (timeout or socket error).
pub fn query_outcome(reply: Option<&[u8]>) -> (o: QueryOutcome)
    ensures
        o == spec_query_outcome(
            match reply {
                Some(b) => Some(b@),
                None => None,
            },
        ),
{
    match reply {
        None => QueryOutcome::NoResponse,
        Some(buf) => match parse_response(buf) {
            Some(a) => {
                if a.id == DNS_QUERY_ID && a.rcode == 0 && a.ancount > 0 {
                    QueryOutcome::Resolved
                } else if a.rcode == 3 {
                    QueryOutcome::NxDomain
                } else {
                    QueryOutcome::NoResponse
                }
            },
            None => QueryOutcome::NoResponse,
        },
    }
}

/// The resolver named by one line of `/etc/resolv.conf`: the trimmed line
/// starts with `nameserver` and the trimmed rest is an IP address.
pub open spec fn resolv_conf_server(line: Seq<char>) -> Option<IpAddr> {
    let l = trim(line);
    if starts_with(l, "nameserver"@) {
        spec_parse_ip(trim(l.skip("nameserver"@.len() as int)))
    } else {
        None
    }
}

/// The resolvers named in `/etc/resolv.conf` text, in order.
pub open spec fn spec_parse_resolv_conf(text: Seq<char>) -> Seq<IpAddr> {
    collect_some(lines(text), |l: Seq<char>| resolv_conf_server(l))
}

/// The resolver named by one line of `scutil --dns` output: the trimmed line
/// starts with `nameserver[` and the trimmed text after its last colon is an
/// IP address.
pub open spec fn scutil_server(line: Seq<char>) -> Option<IpAddr> {
    let l = trim(line);
    let k = last_index_of(l, ':');
    if starts_with(l, "nameserver["@) && k >= 0 {
        spec_parse_ip(trim(l.skip(k + 1)))
    } else {
        None
    }
}

/// The resolvers named in `scutil --dns` output, in order.
pub open spec fn spec_parse_scutil(text: Seq<char>) -> Seq<IpAddr> {
    collect_some(lines(text), |l: Seq<char>| scutil_server(l))
}

fn resolv_conf_line(t: &[char], a: usize, b: usize, prefix: &[char]) -> (r: Option<IpAddr>)
    requires
        a <= b <= t@.len(),
        prefix@ == "nameserver"@,
    ensures
        r == resolv_conf_server(t@.subrange(a as int, b as int)),
{
    let (c, d) = trim_range(t, a, b);
    if !range_starts_with(t, c, d, prefix) {
        return None;
    }
    let start = c + prefix.len();
    assert(t@.subrange(c as int, d as int).skip(prefix@.len() as int) =~= t@.subrange(start as int, d as int));
    let (e, f) = trim_range(t, start, d);
    parse_ip_range(t, e, f)
}

fn scutil_line(t: &[char], a: usize, b: usize, prefix: &[char]) -> (r: Option<IpAddr>)
    requires
        a <= b <= t@.len(),
        prefix@ == "nameserver["@,
    ensures
        r == scutil_server(t@.subrange(a as int, b as int)),
{
    let (c, d) = trim_range(t, a, b);
    if !range_starts_with(t, c, d, prefix) {
        return None;
    }
    match rfind_char(t, c, d, ':') {
        Some(k) => {
            assert(t@.subrange(c as int, d as int).skip(k - c + 1) =~= t@.subrange(k + 1, d as int));
            let (e, f) = trim_range(t, k + 1, d);
            parse_ip_range(t, e, f)
        },
        None => None,
    }
}

/// Extracts `nameserver <IP>` entries from `/etc/resolv.conf` text (Linux).
pub fn parse_resolv_conf(text: &str) -> (r: Vec<IpAddr>)
    ensures
        r@ == spec_parse_resolv_conf(text@),
{
    let t = chars_of(text);
    let n = t.len();
    assert(t@.subrange(0, n as int) =~= text@);
    let ls = line_ranges(t.as_slice(), 0, n);
    let ghost all = lines(text@);
    let ghost f = |l: Seq<char>| resolv_conf_server(l);
    let prefix = chars_of("nameserver");
    let mut out: Vec<IpAddr> = Vec::new();
    let mut i: usize = 0;
    assert(collect_some(all.take(0), f) =~= Seq::<IpAddr>::empty());
    while i < ls.len()
        invariant
            i <= ls@.len() == all.len(),
            t@ == text@,
            n == t@.len(),
            all == lines(text@),
            f == (|l: Seq<char>| resolv_conf_server(l)),
            prefix@ == "nameserver"@,
            forall|j: int|
                0 <= j < ls@.len() ==> 0 <= (#[trigger] ls@[j]).0 <= ls@[j].1 <= n && t@.subrange(
                    ls@[j].0 as int,
                    ls@[j].1 as int,
                ) == all[j],
            out@ == collect_some(all.take(i as int), f),
        decreases ls@.len() - i,
    {
        let (a, b) = ls[i];
        proof {
            lemma_collect_some_step(all, f, i as int);
        }
        match resolv_conf_line(t.as_slice(), a, b, prefix.as_slice()) {
            Some(ip) => out.push(ip),
            None => {},
        }
        i = i + 1;
    }
    assert(all.take(ls@.len() as int) =~= all);
    out
}

/// Extracts `nameserver[N] : <IP>` entries from `scutil --dns` output (macOS).
pub fn parse_scutil(text: &str) -> (r: Vec<IpAddr>)
    ensures
        r@ == spec_parse_scutil(text@),
{
    let t = chars_of(text);
    let n = t.len();
    assert(t@.subrange(0, n as int) =~= text@);
    let ls = line_ranges(t.as_slice(), 0, n);
    let ghost all = lines(text@);
    let ghost f = |l: Seq<char>| scutil_server(l);
    let prefix = chars_of("nameserver[");
    let mut out: Vec<IpAddr> = Vec::new();
    let mut i: usize = 0;
    assert(collect_some(all.take(0), f) =~= Seq::<IpAddr>::empty());
    while i < ls.len()
        invariant
            i <= ls@.len() == all.len(),
            t@ == text@,
            n == t@.len(),
            all == lines(text@),
            f == (|l: Seq<char>| scutil_server(l)),
            prefix@ == "nameserver["@,
            forall|j: int|
                0 <= j < ls@.len() ==> 0 <= (#[trigger] ls@[j]).0 <= ls@[j].1 <= n && t@.subrange(
                    ls@[j].0 as int,
                    ls@[j].1 as int,
                ) == all[j],
            out@ == collect_some(all.take(i as int), f),
        decreases ls@.len() - i,
    {
        let (a, b) = ls[i];
        proof {
            lemma_collect_some_step(all, f, i as int);
        }
        match scutil_line(t.as_slice(), a, b, prefix.as_slice()) {
            Some(ip) => out.push(ip),
            None => {},
        }
        i = i + 1;
    }
    assert(all.take(ls@.len() as int) =~= all);
    out
}

/// The public resolvers asked as a fallback: 8.8.8.8 and 1.1.1.1.
pub fn public_resolvers() -> (v: Vec<IpAddr>)
    ensures
        v@ == seq![IpAddr::V4([8u8, 8u8, 8u8, 8u8]), IpAddr::V4([1u8, 1u8, 1u8, 1u8])],
{
    let mut v: Vec<IpAddr> = Vec::new();
    v.push(IpAddr::V4([8, 8, 8, 8]));
    v.push(IpAddr::V4([1, 1, 1, 1]));
    v
}

/// The name resolved by the DNS stage: the target's host, or `ya.ru` for an
/// IP target.
pub open spec fn spec_dns_query_name(t: TargetView) -> Seq<char> {
    match t {
        TargetView::Host { host, .. } => host,
        TargetView::Ip { .. } => "ya.ru"@,
    }
}

/// The name that the DNS stage resolves.
pub fn dns_query_name(target: &Target) -> (name: &str)
    ensures
        name@ == spec_dns_query_name(target@),
{
    match target.host() {
        Some(h) => h,
        None => "ya.ru",
    }
}

/// The error text of a failed DNS verdict for the name `name`.
pub open spec fn dns_error_text(v: DnsVerdict, name: Seq<char>) -> Option<Seq<char>> {
    match v {
        DnsVerdict::Healthy => None,
        DnsVerdict::SystemBrokenPublicWorks => Some("системный DNS не отвечает, публичные работают"@),
        DnsVerdict::Blocked => Some("DNS недоступен (:53 заблокирован?)"@),
        DnsVerdict::Nxdomain => Some("имя '"@ + name + "' не существует (NXDOMAIN)"@),
    }
}

/// The DNS stage: the outcome row `dns` for the answers of the system and
/// the public resolvers about the target's name, and whether the stage passed.
pub fn probe_dns(
    target: &Target,
    system: &[QueryOutcome],
    public: &[QueryOutcome],
    elapsed_nanos: u128,
) -> (r: (CheckOutcome, bool))
    ensures
        ({
            let v = spec_classify_dns(system@, public@);
            &&& r.1 == (v == DnsVerdict::Healthy)
            &&& outcome_is(r.0, "dns"@, r.1, elapsed_nanos, dns_error_text(v, spec_dns_query_name(target@)))
        }),
{
    let name = dns_query_name(target);
    let verdict = classify_dns(system, public);
    let ok = verdict.is_ok();
    let error = match verdict {
        DnsVerdict::Healthy => None,
        DnsVerdict::SystemBrokenPublicWorks => Some(String::from_str("системный DNS не отвечает, публичные работают")),
        DnsVerdict::Blocked => Some(String::from_str("DNS недоступен (:53 заблокирован?)")),
        DnsVerdict::Nxdomain => {
            let mut m = String::from_str("имя '");
            m.append(name);
            m.append("' не существует (NXDOMAIN)");
            Some(m)
        },
    };
    let outcome = CheckOutcome { name: String::from_str("dns"), success: ok, elapsed_nanos, error };
    (outcome, ok)
}

} // verus!
