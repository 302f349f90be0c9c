//! IP addresses: the model, their standard text form, and parsing of
//! address and socket-address text.

use vstd::prelude::*;
use crate::text::{
    all_hex_digits, bounded_decimal, chars_of, hex_digit_value, is_hex_digit, decimal, digit_char, digit_to_char, digits_value, find_char,
    index_of, lemma_split_nonempty, lemma_split_step, lemma_split_concat, lemma_split_without,
    parse_decimal, push_char, push_str, split_on,
    write_decimal,
};

verus! {

/// An IP address: four octets, or eight 16-bit groups.
#[derive(Debug, Clone, Copy, PartialEq, Eq)]
pub enum IpAddr {
    V4([u8; 4]),
    V6([u16; 8]),
}

/// The lowercase hex digit for `d < 16`.
pub open spec fn hex_digit_char(d: nat) -> char {
    if d < 10 {
        digit_char(d)
    } else {
        (d - 10 + 97) as char
    }
}

/// Lowercase hexadecimal text of `n` without leading zeros (`{:x}`).
pub open spec fn hex_text(n: nat) -> Seq<char>
    decreases n,
{
    if n < 16 {
        seq![hex_digit_char(n)]
    } else {
        hex_text(n / 16).push(hex_digit_char(n % 16))
    }
}

/// Dotted-decimal text `a.b.c.d`.
pub open spec fn ipv4_text(a: [u8; 4]) -> Seq<char> {
    decimal(a[0] as nat) + seq!['.'] + decimal(a[1] as nat) + seq!['.'] + decimal(a[2] as nat)
        + seq!['.'] + decimal(a[3] as nat)
}

/// Hex groups joined by `:`.
pub open spec fn groups_text(gs: Seq<u16>) -> Seq<char>
    decreases gs.len(),
{
    if gs.len() == 0 {
        seq![]
    } else if gs.len() == 1 {
        hex_text(gs[0] as nat)
    } else {
        hex_text(gs[0] as nat) + seq![':'] + groups_text(gs.drop_first())
    }
}

/// The number of consecutive zero groups starting at `i`.
pub open spec fn zero_run(gs: Seq<u16>, i: int) -> nat
    decreases gs.len() - i,
{
    if 0 <= i < gs.len() && gs[i] == 0 {
        1 + zero_run(gs, i + 1)
    } else {
        0
    }
}

/// The longest run of zero groups at or after `i`.
pub open spec fn longest_zero_run(gs: Seq<u16>, i: int) -> nat
    decreases gs.len() - i,
{
    if 0 <= i < gs.len() {
        let here = zero_run(gs, i);
        let later = longest_zero_run(gs, i + 1);
        if here >= later {
            here
        } else {
            later
        }
    } else {
        0
    }
}

/// The first index at or after `i` where a run of `len` zero groups starts.
pub open spec fn first_run_of(gs: Seq<u16>, i: int, len: nat) -> int
    decreases gs.len() - i,
{
    if 0 <= i < gs.len() {
        if zero_run(gs, i) == len {
            i
        } else {
            first_run_of(gs, i + 1, len)
        }
    } else {
        gs.len() as int
    }
}

/// Whether the address is an IPv4-mapped one, `::ffff:a.b.c.d`.
pub open spec fn is_v4_mapped(g: [u16; 8]) -> bool {
    g[0] == 0 && g[1] == 0 && g[2] == 0 && g[3] == 0 && g[4] == 0 && g[5] == 0xffff
}

/// The four octets held in two groups.
pub open spec fn octets_of(hi: u16, lo: u16) -> [u8; 4] {
    [(hi / 256) as u8, (hi % 256) as u8, (lo / 256) as u8, (lo % 256) as u8]
}

/// The standard (RFC 5952) text of an IPv6 address: `::ffff:` and the dotted
/// IPv4 address for a mapped address; otherwise lowercase hex groups without
/// leading zeros, the first longest run of two or more zero groups written as `::`.
pub open spec fn ipv6_text(g: [u16; 8]) -> Seq<char> {
    if is_v4_mapped(g) {
        "::ffff:"@ + ipv4_text(octets_of(g[6], g[7]))
    } else {
        let m = longest_zero_run(g@, 0);
        if m > 1 {
            let s = first_run_of(g@, 0, m);
            groups_text(g@.take(s)) + seq![':', ':'] + groups_text(g@.skip(s + m))
        } else {
            groups_text(g@)
        }
    }
}

/// The text of an address (`Display` of `std::net::IpAddr`).
pub open spec fn ip_text(a: IpAddr) -> Seq<char> {
    match a {
        IpAddr::V4(o) => ipv4_text(o),
        IpAddr::V6(g) => ipv6_text(g),
    }
}

/// The lowercase hex digit for `d < 16`.
fn hex_digit_to_char(d: u8) -> (c: char)
    requires
        d < 16,
    ensures
        c == hex_digit_char(d as nat),
{
    if d < 10 {
        digit_to_char(d)
    } else {
        let b: u8 = d - 10 + 97;
        b as char
    }
}

/// Appends the lowercase hex text of `n`.
pub fn write_hex(out: &mut String, n: u16)
    ensures
        final(out)@ == old(out)@ + hex_text(n as nat),
    decreases n,
{
    if n >= 16 {
        write_hex(out, n / 16);
    }
    let d: u8 = (n % 16) as u8;
    push_char(out, hex_digit_to_char(d));
    proof {
        if n >= 16 {
            assert(old(out)@ + hex_text(n as nat) =~= old(out)@ + hex_text((n / 16) as nat) + seq![hex_digit_char(d as nat)]);
        } else {
            assert(hex_text(n as nat) =~= seq![hex_digit_char(d as nat)]);
        }
    }
}

/// Appends the dotted-decimal text of `a`.
pub fn write_ipv4(out: &mut String, a: [u8; 4])
    ensures
        final(out)@ == old(out)@ + ipv4_text(a),
{
    write_decimal(out, a[0] as u128);
    push_char(out, '.');
    write_decimal(out, a[1] as u128);
    push_char(out, '.');
    write_decimal(out, a[2] as u128);
    push_char(out, '.');
    write_decimal(out, a[3] as u128);
    assert(out@ =~= old(out)@ + ipv4_text(a));
}

/// Appends `groups_text(g[lo..hi])`.
fn write_groups(out: &mut String, g: [u16; 8], lo: usize, hi: usize)
    requires
        lo <= hi <= 8,
    ensures
        final(out)@ == old(out)@ + groups_text(g@.subrange(lo as int, hi as int)),
    decreases hi - lo,
{
    if lo == hi {
        assert(groups_text(g@.subrange(lo as int, hi as int)) =~= Seq::<char>::empty());
        return;
    }
    write_hex(out, g[lo]);
    let ghost gs = g@.subrange(lo as int, hi as int);
    assert(gs[0] == g[lo as int]);
    if lo + 1 < hi {
        push_char(out, ':');
        write_groups(out, g, lo + 1, hi);
        assert(gs.drop_first() =~= g@.subrange(lo + 1, hi as int));
        assert(out@ =~= old(out)@ + groups_text(gs));
    } else {
        assert(out@ =~= old(out)@ + groups_text(gs));
    }
}

/// The number of zero groups starting at `i`.
fn zero_run_at(g: [u16; 8], i: usize) -> (n: usize)
    requires
        i <= 8,
    ensures
        n == zero_run(g@, i as int),
        n <= 8 - i,
    decreases 8 - i,
{
    if i < 8 && g[i] == 0 {
        1 + zero_run_at(g, i + 1)
    } else {
        0
    }
}

/// Appends the standard text of an IPv6 address.
#[verifier::rlimit(20)]
pub fn write_ipv6(out: &mut String, g: [u16; 8])
    ensures
        final(out)@ == old(out)@ + ipv6_text(g),
{
    if g[0] == 0 && g[1] == 0 && g[2] == 0 && g[3] == 0 && g[4] == 0 && g[5] == 0xffff {
        push_str(out, "::ffff:");
        let o: [u8; 4] = [(g[6] / 256) as u8, (g[6] % 256) as u8, (g[7] / 256) as u8, (g[7] % 256) as u8];
        assert(o == octets_of(g[6], g[7]));
        write_ipv4(out, o);
        assert(out@ =~= old(out)@ + ipv6_text(g));
        return;
    }
    // Find the first longest run of zero groups.
    let mut best_len: usize = 0;
    let mut best_start: usize = 0;
    let mut i: usize = 8;
    // Scan from the end so that an earlier run of equal length wins.
    while i > 0
        invariant
            i <= 8,
            best_len == longest_zero_run(g@, i as int),
            best_len > 0 ==> best_start == first_run_of(g@, i as int, best_len as nat),
            best_len <= 8,
        decreases i,
    {
        i = i - 1;
        let r = zero_run_at(g, i);
        if r >= best_len {
            best_start = i;
            best_len = r;
        } else {
            proof {
                lemma_first_run_skip(g@, i as int, best_len as nat);
            }
        }
    }
    if best_len > 1 {
        proof {
            lemma_first_run_bounds(g@, 0, best_len as nat);
        }
        write_groups(out, g, 0, best_start);
        push_char(out, ':');
        push_char(out, ':');
        write_groups(out, g, best_start + best_len, 8);
        assert(g@.subrange(0, best_start as int) =~= g@.take(best_start as int));
        assert(g@.subrange(best_start + best_len, 8) =~= g@.skip(best_start + best_len));
        assert(out@ =~= old(out)@ + ipv6_text(g));
    } else {
        write_groups(out, g, 0, 8);
        assert(g@.subrange(0, 8) =~= g@);
        assert(out@ =~= old(out)@ + ipv6_text(g));
    }
}

proof fn lemma_first_run_skip(gs: Seq<u16>, i: int, len: nat)
    requires
        0 <= i < gs.len(),
        zero_run(gs, i) < len,
    ensures
        first_run_of(gs, i, len) == first_run_of(gs, i + 1, len),
{
}

/// A run of `len` zero groups found by `first_run_of` fits in the address.
pub proof fn lemma_first_run_bounds(gs: Seq<u16>, i: int, len: nat)
    requires
        0 <= i <= gs.len(),
        len > 0,
        len == longest_zero_run(gs, i),
    ensures
        i <= first_run_of(gs, i, len) < gs.len(),
        first_run_of(gs, i, len) + len <= gs.len(),
        zero_run(gs, first_run_of(gs, i, len)) == len,
    decreases gs.len() - i,
{
    lemma_zero_run_bound(gs, i);
    if i < gs.len() && zero_run(gs, i) != len {
        lemma_first_run_bounds(gs, i + 1, len);
    }
}

proof fn lemma_zero_run_bound(gs: Seq<u16>, i: int)
    requires
        0 <= i <= gs.len(),
    ensures
        zero_run(gs, i) + i <= gs.len(),
    decreases gs.len() - i,
{
    if i < gs.len() {
        lemma_zero_run_bound(gs, i + 1);
    }
}

/// Appends the text of an address.
pub fn write_ip(out: &mut String, a: &IpAddr)
    ensures
        final(out)@ == old(out)@ + ip_text(*a),
{
    match a {
        IpAddr::V4(o) => write_ipv4(out, *o),
        IpAddr::V6(g) => write_ipv6(out, *g),
    }
}

impl IpAddr {
    /// The standard text of the address (`192.168.1.1`, `2001:db8::1`).
    pub fn to_text(&self) -> (s: String)
        ensures
            s@ == ip_text(*self),
    {
        let mut s = String::new();
        write_ip(&mut s, self);
        assert(s@ =~= ip_text(*self));
        s
    }
}

} // verus!

verus! {

/// One dotted-decimal component: one to three digits, no leading zero
/// (octal-looking components are refused), at most 255.
pub open spec fn octet_of(p: Seq<char>) -> Option<u8> {
    if 1 <= p.len() <= 3 && (p.len() == 1 || p[0] != '0') {
        match bounded_decimal(p, 255) {
            Some(v) => Some(v as u8),
            None => None,
        }
    } else {
        None
    }
}

/// Dotted-decimal IPv4 text: exactly four components separated by dots
/// (`Ipv4Addr::from_str`).
pub open spec fn spec_parse_ipv4(s: Seq<char>) -> Option<[u8; 4]> {
    let parts = split_on(s, '.');
    if parts.len() == 4 && octet_of(parts[0]) is Some && octet_of(parts[1]) is Some
        && octet_of(parts[2]) is Some && octet_of(parts[3]) is Some {
        Some(
            [
                octet_of(parts[0])->0,
                octet_of(parts[1])->0,
                octet_of(parts[2])->0,
                octet_of(parts[3])->0,
            ],
        )
    } else {
        None
    }
}

/// One IPv6 group: one to four hex digits (leading zeros allowed).
pub open spec fn group_of(p: Seq<char>) -> Option<u16> {
    if 1 <= p.len() <= 4 && all_hex_digits(p) {
        Some(digits_value(p, 16) as u16)
    } else {
        None
    }
}

/// Every part is a group: their values, in order.
pub open spec fn groups_of(parts: Seq<Seq<char>>) -> Option<Seq<u16>>
    decreases parts.len(),
{
    if parts.len() == 0 {
        Some(seq![])
    } else {
        match (group_of(parts[0]), groups_of(parts.drop_first())) {
            (Some(g), Some(rest)) => Some(seq![g] + rest),
            _ => None,
        }
    }
}

/// The two groups that hold four octets.
pub open spec fn words_of(o: [u8; 4]) -> Seq<u16> {
    seq![(o[0] * 256 + o[1]) as u16, (o[2] * 256 + o[3]) as u16]
}

/// Groups of which the last may be written as a dotted IPv4 address (which
/// stands for two groups).
pub open spec fn fields_of(parts: Seq<Seq<char>>) -> Option<Seq<u16>> {
    if parts.len() > 0 && spec_parse_ipv4(parts.last()) is Some {
        match groups_of(parts.drop_last()) {
            Some(h) => Some(h + words_of(spec_parse_ipv4(parts.last())->0)),
            None => None,
        }
    } else {
        groups_of(parts)
    }
}

/// The index of the first `::` in `s`, or -1.
pub open spec fn double_colon(s: Seq<char>) -> int
    decreases s.len(),
{
    if s.len() < 2 {
        -1
    } else if s[0] == ':' && s[1] == ':' {
        0
    } else {
        let r = double_colon(s.drop_first());
        if r < 0 {
            -1
        } else {
            r + 1
        }
    }
}

/// The array of the first eight groups.
pub open spec fn to_groups(g: Seq<u16>) -> [u16; 8] {
    [g[0], g[1], g[2], g[3], g[4], g[5], g[6], g[7]]
}

/// `n` zero groups.
pub open spec fn zero_groups(n: nat) -> Seq<u16> {
    Seq::new(n, |i: int| 0u16)
}

/// IPv6 text (`Ipv6Addr::from_str`): eight groups separated by colons, the
/// last two of which may be written as a dotted IPv4 address; or, with one
/// `::` standing for at least one zero group, up to seven groups around it
/// (a dotted IPv4 address allowed only at the very end).
pub open spec fn spec_parse_ipv6(s: Seq<char>) -> Option<[u16; 8]> {
    let k = double_colon(s);
    if k < 0 {
        match fields_of(split_on(s, ':')) {
            Some(g) => if g.len() == 8 {
                Some(to_groups(g))
            } else {
                None
            },
            None => None,
        }
    } else {
        let h = s.take(k);
        let t = s.skip(k + 2);
        let head = if h.len() == 0 {
            Some(Seq::<u16>::empty())
        } else {
            groups_of(split_on(h, ':'))
        };
        let tail = if t.len() == 0 {
            Some(Seq::<u16>::empty())
        } else {
            fields_of(split_on(t, ':'))
        };
        match (head, tail) {
            (Some(hg), Some(tg)) => if hg.len() + tg.len() <= 7 {
                Some(to_groups(hg + zero_groups((8 - hg.len() - tg.len()) as nat) + tg))
            } else {
                None
            },
            _ => None,
        }
    }
}

/// IP address text, IPv4 first (`IpAddr::from_str`).
pub open spec fn spec_parse_ip(s: Seq<char>) -> Option<IpAddr> {
    match spec_parse_ipv4(s) {
        Some(a) => Some(IpAddr::V4(a)),
        None => match spec_parse_ipv6(s) {
            Some(g) => Some(IpAddr::V6(g)),
            None => None,
        },
    }
}

/// A port: decimal digits (leading zeros allowed) of a value up to 65535.
pub open spec fn port_of(s: Seq<char>) -> Option<u16> {
    match bounded_decimal(s, 65535) {
        Some(v) => Some(v as u16),
        None => None,
    }
}

/// `a.b.c.d:port`.
pub open spec fn spec_parse_socket_v4(s: Seq<char>) -> Option<(IpAddr, u16)> {
    let k = index_of(s, ':');
    if k >= 0 {
        match (spec_parse_ipv4(s.take(k)), port_of(s.skip(k + 1))) {
            (Some(a), Some(p)) => Some((IpAddr::V4(a), p)),
            _ => None,
        }
    } else {
        None
    }
}

/// `[ipv6]:port` or `[ipv6%scope]:port`, the scope a decimal 32-bit number.
pub open spec fn spec_parse_socket_v6(s: Seq<char>) -> Option<(IpAddr, u16)> {
    let j = index_of(s, ']');
    if s.len() > 0 && s[0] == '[' && j >= 0 {
        let inner = s.subrange(1, j);
        let after = s.skip(j + 1);
        let p = index_of(inner, '%');
        let addr = if p >= 0 {
            inner.take(p)
        } else {
            inner
        };
        let scope_ok = p < 0 || bounded_decimal(inner.skip(p + 1), 0xffff_ffff) is Some;
        if scope_ok && after.len() > 0 && after[0] == ':' {
            match (spec_parse_ipv6(addr), port_of(after.skip(1))) {
                (Some(g), Some(port)) => Some((IpAddr::V6(g), port)),
                _ => None,
            }
        } else {
            None
        }
    } else {
        None
    }
}

/// Socket-address text, IPv4 form first (`SocketAddr::from_str`); the
/// scope of an IPv6 address is read and dropped.
pub open spec fn spec_parse_socket(s: Seq<char>) -> Option<(IpAddr, u16)> {
    match spec_parse_socket_v4(s) {
        Some(r) => Some(r),
        None => spec_parse_socket_v6(s),
    }
}

} // verus!

verus! {

/// Reads one dotted-decimal component `t[a..b]`.
fn parse_octet(t: &[char], a: usize, b: usize) -> (r: Option<u8>)
    requires
        a <= b <= t@.len(),
    ensures
        r == octet_of(t@.subrange(a as int, b as int)),
{
    let ghost p = t@.subrange(a as int, b as int);
    if b - a < 1 || b - a > 3 {
        return None;
    }
    if b - a > 1 && t[a] == '0' {
        assert(p[0] == t@[a as int]);
        return None;
    }
    assert(p[0] == t@[a as int]);
    match parse_decimal(t, a, b, 255) {
        Some(v) => Some(v as u8),
        None => None,
    }
}

/// Reads `t[lo..hi]` as dotted-decimal IPv4 text.
#[verifier::rlimit(30)]
pub fn parse_ipv4_range(t: &[char], lo: usize, hi: usize) -> (r: Option<[u8; 4]>)
    requires
        lo <= hi <= t@.len(),
    ensures
        r == spec_parse_ipv4(t@.subrange(lo as int, hi as int)),
{
    let ghost s = t@.subrange(lo as int, hi as int);
    proof {
        lemma_split_step(t@, lo as int, hi as int, '.');
    }
    let p1 = match find_char(t, lo, hi, '.') {
        Some(j) => j,
        None => return None,
    };
    proof {
        lemma_split_step(t@, p1 + 1, hi as int, '.');
    }
    let p2 = match find_char(t, p1 + 1, hi, '.') {
        Some(j) => j,
        None => return None,
    };
    proof {
        lemma_split_step(t@, p2 + 1, hi as int, '.');
    }
    let p3 = match find_char(t, p2 + 1, hi, '.') {
        Some(j) => j,
        None => return None,
    };
    proof {
        lemma_split_step(t@, p3 + 1, hi as int, '.');
    }
    let ghost parts = split_on(s, '.');
    match find_char(t, p3 + 1, hi, '.') {
        Some(p4) => {
            proof {
                lemma_split_nonempty(t@.subrange(p4 + 1, hi as int), '.');
            }
            return None;
        },
        None => {},
    }
    assert(parts =~= seq![
        t@.subrange(lo as int, p1 as int),
        t@.subrange(p1 + 1, p2 as int),
        t@.subrange(p2 + 1, p3 as int),
        t@.subrange(p3 + 1, hi as int),
    ]);
    let o0 = match parse_octet(t, lo, p1) {
        Some(v) => v,
        None => return None,
    };
    let o1 = match parse_octet(t, p1 + 1, p2) {
        Some(v) => v,
        None => return None,
    };
    let o2 = match parse_octet(t, p2 + 1, p3) {
        Some(v) => v,
        None => return None,
    };
    let o3 = match parse_octet(t, p3 + 1, hi) {
        Some(v) => v,
        None => return None,
    };
    Some([o0, o1, o2, o3])
}

} // verus!

verus! {

/// The value of a hex digit character, if it is one.
fn hex_digit(c: char) -> (r: Option<u32>)
    ensures
        match r {
            Some(v) => is_hex_digit(c) && v == hex_digit_value(c) && v < 16,
            None => !is_hex_digit(c),
        },
{
    if c >= '0' && c <= '9' {
        Some((c as u32) - 48)
    } else if c >= 'a' && c <= 'f' {
        Some((c as u32) - 87)
    } else if c >= 'A' && c <= 'F' {
        Some((c as u32) - 55)
    } else {
        None
    }
}

/// Reads one IPv6 group `t[a..b]`.
#[verifier::rlimit(20)]
fn parse_group(t: &[char], a: usize, b: usize) -> (r: Option<u16>)
    requires
        a <= b <= t@.len(),
    ensures
        r == group_of(t@.subrange(a as int, b as int)),
{
    let ghost s = t@.subrange(a as int, b as int);
    if b - a < 1 || b - a > 4 {
        return None;
    }
    let mut acc: u32 = 0;
    let mut i = a;
    while i < b
        invariant
            a <= i <= b <= t@.len(),
            b - a <= 4,
            s == t@.subrange(a as int, b as int),
            all_hex_digits(s.take(i - a)),
            acc as nat == digits_value(s.take(i - a), 16),
            acc < pow16(i - a),
        decreases b - i,
    {
        let c = t[i];
        let d = match hex_digit(c) {
            Some(d) => d,
            None => {
                assert(!is_hex_digit(s[i - a]));
                return None;
            },
        };
        assert(s.take(i - a + 1).drop_last() =~= s.take(i - a));
        assert(s.take(i - a + 1).last() == c);
        assert(acc * 16 + d < pow16(i - a + 1)) by (nonlinear_arith)
            requires
                acc < pow16(i - a),
                d < 16,
                pow16(i - a + 1) == pow16(i - a) * 16,
        ;
        acc = acc * 16 + d;
        i = i + 1;
        assert(all_hex_digits(s.take(i - a))) by {
            assert forall|k: int| 0 <= k < s.take(i - a).len() implies is_hex_digit(#[trigger] s.take(i - a)[k]) by {
                if k < i - 1 - a {
                    assert(s.take(i - a)[k] == s.take(i - 1 - a)[k]);
                }
            }
        }
    }
    assert(s.take(b - a) =~= s);
    assert(acc < 65536) by {
        assert(pow16(b - a) <= 65536);
    }
    Some(acc as u16)
}

/// 16 to the power `n`, for `n <= 4`.
spec fn pow16(n: int) -> nat {
    if n <= 0 {
        1
    } else if n == 1 {
        16
    } else if n == 2 {
        256
    } else if n == 3 {
        4096
    } else {
        65536
    }
}

pub proof fn lemma_groups_of_append(a: Seq<Seq<char>>, b: Seq<Seq<char>>)
    ensures
        groups_of(a + b) == (match (groups_of(a), groups_of(b)) {
            (Some(x), Some(y)) => Some(x + y),
            _ => None::<Seq<u16>>,
        }),
    decreases a.len(),
{
    if a.len() == 0 {
        assert(a + b =~= b);
        match groups_of(b) {
            Some(y) => assert(Seq::<u16>::empty() + y =~= y),
            None => {},
        }
    } else {
        lemma_groups_of_append(a.drop_first(), b);
        assert((a + b).drop_first() =~= a.drop_first() + b);
        assert((a + b)[0] == a[0]);
        match (groups_of(a.drop_first()), groups_of(b), group_of(a[0])) {
            (Some(x), Some(y), Some(g)) => {
                assert(seq![g] + (x + y) =~= (seq![g] + x) + y);
            },
            _ => {},
        }
    }
}

pub proof fn lemma_groups_of_single(p: Seq<char>)
    ensures
        groups_of(seq![p]) == (match group_of(p) {
            Some(g) => Some(seq![g]),
            None => None::<Seq<u16>>,
        }),
{
    assert(seq![p].drop_first() =~= Seq::<Seq<char>>::empty());
    assert(seq![p][0] == p);
    assert(groups_of(Seq::<Seq<char>>::empty()) == Some(Seq::<u16>::empty()));
    match group_of(p) {
        Some(g) => assert(seq![g] + Seq::<u16>::empty() =~= seq![g]),
        None => {},
    }
}

/// Reads the colon-separated groups of `t[lo..hi]`; with `allow_v4` the last
/// of them may be a dotted IPv4 address.
#[verifier::rlimit(30)]
fn parse_fields(t: &[char], lo: usize, hi: usize, allow_v4: bool) -> (r: Option<Vec<u16>>)
    requires
        lo <= hi <= t@.len(),
    ensures
        ({
            let parts = split_on(t@.subrange(lo as int, hi as int), ':');
            let spec_r = if allow_v4 {
                fields_of(parts)
            } else {
                groups_of(parts)
            };
            match r {
                Some(v) => spec_r == Some(v@),
                None => spec_r is None,
            }
        }),
{
    let ghost s = t@.subrange(lo as int, hi as int);
    let ghost all = split_on(s, ':');
    let mut out: Vec<u16> = Vec::new();
    let mut pos = lo;
    let ghost mut done: Seq<Seq<char>> = Seq::empty();
    assert(t@.subrange(lo as int, hi as int) =~= s);
    assert(all =~= done + split_on(t@.subrange(pos as int, hi as int), ':'));
    loop
        invariant
            lo <= pos <= hi <= t@.len(),
            s == t@.subrange(lo as int, hi as int),
            all == split_on(s, ':'),
            all == done + split_on(t@.subrange(pos as int, hi as int), ':'),
            groups_of(done) == Some(out@),
        decreases hi - pos,
    {
        proof {
            lemma_split_step(t@, pos as int, hi as int, ':');
        }
        let ghost rest = split_on(t@.subrange(pos as int, hi as int), ':');
        match find_char(t, pos, hi, ':') {
            Some(j) => {
                let ghost piece = t@.subrange(pos as int, j as int);
                let ghost tail = split_on(t@.subrange(j + 1, hi as int), ':');
                assert(rest == seq![piece] + tail);
                proof {
                    lemma_groups_of_append(done, seq![piece]);
                    lemma_groups_of_single(piece);
                    lemma_groups_of_append(done + seq![piece], tail);
                    assert(all =~= (done + seq![piece]) + tail);
                    lemma_split_nonempty(t@.subrange(j + 1, hi as int), ':');
                    assert(all.drop_last() =~= (done + seq![piece]) + tail.drop_last());
                    lemma_groups_of_append(done + seq![piece], tail.drop_last());
                }
                let g = match parse_group(t, pos, j) {
                    Some(g) => g,
                    None => return None,
                };
                out.push(g);
                proof {
                    done = done + seq![piece];
                }
                pos = j + 1;
            },
            None => {
                let ghost piece = t@.subrange(pos as int, hi as int);
                assert(all =~= done + seq![piece]);
                assert(all.drop_last() =~= done);
                assert(all.last() == piece);
                proof {
                    lemma_groups_of_append(done, seq![piece]);
                    lemma_groups_of_single(piece);
                }
                if allow_v4 {
                    match parse_ipv4_range(t, pos, hi) {
                        Some(o) => {
                            let w0: u16 = (o[0] as u16) * 256 + (o[1] as u16);
                            let w1: u16 = (o[2] as u16) * 256 + (o[3] as u16);
                            out.push(w0);
                            out.push(w1);
                            assert(out@ =~= groups_of(done)->0 + words_of(o));
                            return Some(out);
                        },
                        None => {},
                    }
                }
                let g = match parse_group(t, pos, hi) {
                    Some(g) => g,
                    None => return None,
                };
                out.push(g);
                return Some(out);
            },
        }
    }
}

} // verus!

verus! {

pub proof fn lemma_double_colon_is(s: Seq<char>, j: int)
    requires
        -1 <= j < s.len(),
        j >= 0 ==> j + 1 < s.len() && s[j] == ':' && s[j + 1] == ':',
        forall|k: int| 0 <= k && k + 1 < s.len() && (j < 0 || k < j) ==> !(#[trigger] s[k] == ':' && s[k + 1] == ':'),
    ensures
        double_colon(s) == j,
    decreases s.len(),
{
    if s.len() >= 2 && !(s[0] == ':' && s[1] == ':') {
        let d = s.drop_first();
        assert forall|k: int| 0 <= k && k + 1 < d.len() && (j - 1 < 0 || k < j - 1) implies !(#[trigger] d[k] == ':' && d[k + 1] == ':') by {
            assert(d[k] == s[k + 1] && d[k + 1] == s[k + 2]);
        }
        if j >= 0 {
            assert(j != 0);
            assert(d[j - 1] == s[j] && d[j] == s[j + 1]);
            lemma_double_colon_is(d, j - 1);
        } else {
            lemma_double_colon_is(d, -1);
        }
    } else if s.len() >= 2 {
        assert(j == 0);
    }
}

/// The first `::` in `t[lo..hi]`.
fn find_double_colon(t: &[char], lo: usize, hi: usize) -> (r: Option<usize>)
    requires
        lo <= hi <= t@.len(),
    ensures
        match r {
            Some(k) => lo <= k && k + 2 <= hi && double_colon(t@.subrange(lo as int, hi as int)) == k - lo,
            None => double_colon(t@.subrange(lo as int, hi as int)) == -1,
        },
{
    let ghost s = t@.subrange(lo as int, hi as int);
    let mut i = lo;
    while hi - i > 1
        invariant
            lo <= i <= hi <= t@.len(),
            s == t@.subrange(lo as int, hi as int),
            forall|k: int| lo <= k < i && k + 1 < hi ==> !(#[trigger] t@[k] == ':' && t@[k + 1] == ':'),
        decreases hi - i,
    {
        if t[i] == ':' && t[i + 1] == ':' {
            proof {
                lemma_double_colon_is(s, i - lo);
            }
            return Some(i);
        }
        i = i + 1;
    }
    proof {
        lemma_double_colon_is(s, -1);
    }
    None
}

/// The eight groups of `v` as an array.
fn groups_array(v: &Vec<u16>) -> (a: [u16; 8])
    requires
        v@.len() == 8,
    ensures
        a == to_groups(v@),
{
    [v[0], v[1], v[2], v[3], v[4], v[5], v[6], v[7]]
}

/// Reads `t[lo..hi]` as IPv6 text.
#[verifier::rlimit(30)]
pub fn parse_ipv6_range(t: &[char], lo: usize, hi: usize) -> (r: Option<[u16; 8]>)
    requires
        lo <= hi <= t@.len(),
    ensures
        r == spec_parse_ipv6(t@.subrange(lo as int, hi as int)),
{
    let ghost s = t@.subrange(lo as int, hi as int);
    match find_double_colon(t, lo, hi) {
        None => {
            match parse_fields(t, lo, hi, true) {
                Some(g) => {
                    if g.len() == 8 {
                        Some(groups_array(&g))
                    } else {
                        None
                    }
                },
                None => None,
            }
        },
        Some(k) => {
            assert(s.take(k - lo) =~= t@.subrange(lo as int, k as int));
            assert(s.skip(k - lo + 2) =~= t@.subrange(k + 2, hi as int));
            let head: Vec<u16> = if k == lo {
                Vec::new()
            } else {
                match parse_fields(t, lo, k, false) {
                    Some(h) => h,
                    None => return None,
                }
            };
            let tail: Vec<u16> = if k + 2 == hi {
                Vec::new()
            } else {
                match parse_fields(t, k + 2, hi, true) {
                    Some(tl) => tl,
                    None => return None,
                }
            };
            if head.len() > 7 || tail.len() > 7 - head.len() {
                return None;
            }
            let mut all: Vec<u16> = Vec::new();
            let mut i: usize = 0;
            while i < head.len()
                invariant
                    i <= head@.len(),
                    all@ == head@.take(i as int),
                decreases head@.len() - i,
            {
                all.push(head[i]);
                i = i + 1;
                assert(all@ =~= head@.take(i as int));
            }
            let zeros: usize = 8 - head.len() - tail.len();
            let mut z: usize = 0;
            while z < zeros
                invariant
                    z <= zeros,
                    head@.len() == i,
                    all@ == head@ + zero_groups(z as nat),
                decreases zeros - z,
            {
                all.push(0);
                z = z + 1;
                assert(all@ =~= head@ + zero_groups(z as nat));
            }
            let mut j: usize = 0;
            while j < tail.len()
                invariant
                    j <= tail@.len(),
                    all@ == head@ + zero_groups(zeros as nat) + tail@.take(j as int),
                decreases tail@.len() - j,
            {
                all.push(tail[j]);
                j = j + 1;
                assert(all@ =~= head@ + zero_groups(zeros as nat) + tail@.take(j as int));
            }
            assert(tail@.take(tail@.len() as int) =~= tail@);
            Some(groups_array(&all))
        },
    }
}

/// Reads `t[lo..hi]` as an IP address, IPv4 first.
pub fn parse_ip_range(t: &[char], lo: usize, hi: usize) -> (r: Option<IpAddr>)
    requires
        lo <= hi <= t@.len(),
    ensures
        r == spec_parse_ip(t@.subrange(lo as int, hi as int)),
{
    match parse_ipv4_range(t, lo, hi) {
        Some(a) => Some(IpAddr::V4(a)),
        None => match parse_ipv6_range(t, lo, hi) {
            Some(g) => Some(IpAddr::V6(g)),
            None => None,
        },
    }
}

/// Reads `t[lo..hi]` as a port number.
fn parse_port(t: &[char], lo: usize, hi: usize) -> (r: Option<u16>)
    requires
        lo <= hi <= t@.len(),
    ensures
        r == port_of(t@.subrange(lo as int, hi as int)),
{
    match parse_decimal(t, lo, hi, 65535) {
        Some(v) => Some(v as u16),
        None => None,
    }
}

/// Reads `t[lo..hi]` as `a.b.c.d:port`.
fn parse_socket_v4_range(t: &[char], lo: usize, hi: usize) -> (r: Option<(IpAddr, u16)>)
    requires
        lo <= hi <= t@.len(),
    ensures
        r == spec_parse_socket_v4(t@.subrange(lo as int, hi as int)),
{
    let ghost s = t@.subrange(lo as int, hi as int);
    match find_char(t, lo, hi, ':') {
        Some(k) => {
            assert(s.take(k - lo) =~= t@.subrange(lo as int, k as int));
            assert(s.skip(k - lo + 1) =~= t@.subrange(k + 1, hi as int));
            match (parse_ipv4_range(t, lo, k), parse_port(t, k + 1, hi)) {
                (Some(a), Some(p)) => Some((IpAddr::V4(a), p)),
                _ => None,
            }
        },
        None => None,
    }
}

/// Reads `t[lo..hi]` as `[ipv6]:port` or `[ipv6%scope]:port`.
#[verifier::rlimit(40)]
#[verifier::spinoff_prover]
fn parse_socket_v6_range(t: &[char], lo: usize, hi: usize) -> (r: Option<(IpAddr, u16)>)
    requires
        lo <= hi <= t@.len(),
    ensures
        r == spec_parse_socket_v6(t@.subrange(lo as int, hi as int)),
{
    let ghost s = t@.subrange(lo as int, hi as int);
    if lo == hi || t[lo] != '[' {
        return None;
    }
    assert(s[0] == t@[lo as int]);
    let j = match find_char(t, lo, hi, ']') {
        Some(j) => j,
        None => return None,
    };
    let ghost inner = s.subrange(1, j - lo);
    assert(inner =~= t@.subrange(lo + 1, j as int));
    let ghost after = s.skip(j - lo + 1);
    assert(after =~= t@.subrange(j + 1, hi as int));
    let addr_end = match find_char(t, lo + 1, j, '%') {
        Some(p) => {
            assert(inner.skip(p - lo - 1 + 1) =~= t@.subrange(p + 1, j as int));
            assert(inner.take(p - lo - 1) =~= t@.subrange(lo + 1, p as int));
            if parse_decimal(t, p + 1, j, 0xffff_ffff).is_none() {
                return None;
            }
            p
        },
        None => j,
    };
    if j + 1 >= hi || t[j + 1] != ':' {
        return None;
    }
    assert(after[0] == t@[j + 1]);
    assert(after.skip(1) =~= t@.subrange(j + 2, hi as int));
    match (parse_ipv6_range(t, lo + 1, addr_end), parse_port(t, j + 2, hi)) {
        (Some(g), Some(port)) => Some((IpAddr::V6(g), port)),
        _ => None,
    }
}

/// Reads `t[lo..hi]` as socket-address text, IPv4 form first.
pub fn parse_socket_range(t: &[char], lo: usize, hi: usize) -> (r: Option<(IpAddr, u16)>)
    requires
        lo <= hi <= t@.len(),
    ensures
        r == spec_parse_socket(t@.subrange(lo as int, hi as int)),
{
    match parse_socket_v4_range(t, lo, hi) {
        Some(r) => Some(r),
        None => parse_socket_v6_range(t, lo, hi),
    }
}

/// Parses IP address text (IPv4 first), as `str::parse::<std::net::IpAddr>`.
pub fn parse_ip(s: &str) -> (r: Option<IpAddr>)
    ensures
        r == spec_parse_ip(s@),
{
    let t = chars_of(s);
    assert(t@.subrange(0, t@.len() as int) =~= s@);
    parse_ip_range(t.as_slice(), 0, t.len())
}

/// Parses socket-address text, as `str::parse::<std::net::SocketAddr>`;
/// the address and the port.
pub fn parse_socket_addr(s: &str) -> (r: Option<(IpAddr, u16)>)
    ensures
        r == spec_parse_socket(s@),
{
    let t = chars_of(s);
    assert(t@.subrange(0, t@.len() as int) =~= s@);
    parse_socket_range(t.as_slice(), 0, t.len())
}

/// The unspecified address (`0.0.0.0` or `::`).
pub open spec fn spec_is_unspecified(a: IpAddr) -> bool {
    match a {
        IpAddr::V4(o) => o[0] == 0 && o[1] == 0 && o[2] == 0 && o[3] == 0,
        IpAddr::V6(g) => g[0] == 0 && g[1] == 0 && g[2] == 0 && g[3] == 0 && g[4] == 0 && g[5] == 0
            && g[6] == 0 && g[7] == 0,
    }
}

impl IpAddr {
    /// Whether this is the unspecified address (`0.0.0.0` or `::`).
    pub fn is_unspecified(&self) -> (r: bool)
        ensures
            r == spec_is_unspecified(*self),
    {
        match self {
            IpAddr::V4(o) => o[0] == 0 && o[1] == 0 && o[2] == 0 && o[3] == 0,
            IpAddr::V6(g) => g[0] == 0 && g[1] == 0 && g[2] == 0 && g[3] == 0 && g[4] == 0 && g[5]
                == 0 && g[6] == 0 && g[7] == 0,
        }
    }
}

} // verus!

verus! {

pub proof fn lemma_hex_digit_char(d: nat)
    requires
        d < 16,
    ensures
        is_hex_digit(hex_digit_char(d)),
        hex_digit_value(hex_digit_char(d)) == d,
{
}

/// The hex text of a group: one to four hex digits denoting it.
pub proof fn lemma_hex_text(v: nat)
    requires
        v < 65536,
    ensures
        1 <= hex_text(v).len() <= 4,
        v < 16 ==> hex_text(v).len() == 1,
        v < 256 ==> hex_text(v).len() <= 2,
        v < 4096 ==> hex_text(v).len() <= 3,
        all_hex_digits(hex_text(v)),
        digits_value(hex_text(v), 16) == v,
    decreases v,
{
    lemma_hex_digit_char(v % 16);
    if v >= 16 {
        lemma_hex_text(v / 16);
        let p = hex_text(v / 16);
        let c = hex_digit_char(v % 16);
        assert(hex_text(v) == p.push(c));
        assert(hex_text(v).drop_last() =~= p);
        assert(hex_text(v).last() == c);
        assert(digits_value(hex_text(v), 16) == digits_value(p, 16) * 16 + hex_digit_value(c));
        assert(v == (v / 16) * 16 + v % 16);
        assert forall|i: int| 0 <= i < hex_text(v).len() implies is_hex_digit(#[trigger] hex_text(v)[i]) by {
            if i < p.len() {
                assert(hex_text(v)[i] == p[i]);
            }
        }
    } else {
        assert(hex_text(v).drop_last() =~= Seq::<char>::empty());
        assert(digits_value(Seq::<char>::empty(), 16) == 0);
    }
}

pub proof fn lemma_group_of_hex(v: u16)
    ensures
        group_of(hex_text(v as nat)) == Some(v),
{
    lemma_hex_text(v as nat);
}

/// The hex texts of groups.
pub open spec fn hex_texts(gs: Seq<u16>) -> Seq<Seq<char>> {
    gs.map_values(|g: u16| hex_text(g as nat))
}

/// Text made of hex digits and single colons, starting and ending with a digit.
pub open spec fn colon_separated(s: Seq<char>) -> bool {
    &&& s.len() >= 1
    &&& is_hex_digit(s[0])
    &&& is_hex_digit(s.last())
    &&& forall|i: int| 0 <= i < s.len() ==> is_hex_digit(#[trigger] s[i]) || s[i] == ':'
    &&& forall|i: int| 0 <= i && i + 1 < s.len() && #[trigger] s[i] == ':' ==> s[i + 1] != ':'
}

/// Groups joined by colons split back into their hex texts, which read as
/// the groups again.
#[verifier::rlimit(20)]
pub proof fn lemma_groups_text(gs: Seq<u16>)
    requires
        gs.len() >= 1,
    ensures
        split_on(groups_text(gs), ':') == hex_texts(gs),
        groups_of(hex_texts(gs)) == Some(gs),
        colon_separated(groups_text(gs)),
    decreases gs.len(),
{
    let h = hex_text(gs[0] as nat);
    lemma_hex_text(gs[0] as nat);
    lemma_group_of_hex(gs[0]);
    assert(!h.contains(':')) by {
        if h.contains(':') {
            let k = choose|k: int| 0 <= k < h.len() && h[k] == ':';
            assert(is_hex_digit(h[k]));
        }
    }
    if gs.len() == 1 {
        lemma_split_without(h, ':');
        assert(hex_texts(gs) =~= seq![h]);
        lemma_groups_of_single(h);
        assert(seq![gs[0]] =~= gs);
    } else {
        let rest = gs.drop_first();
        let rt = groups_text(rest);
        lemma_groups_text(rest);
        assert(groups_text(gs) == h + seq![':'] + rt);
        lemma_split_concat(h, ':', rt);
        assert(hex_texts(gs) =~= seq![h] + hex_texts(rest));
        lemma_groups_of_single(h);
        lemma_groups_of_append(seq![h], hex_texts(rest));
        assert(seq![gs[0]] + rest =~= gs);
        let s = groups_text(gs);
        assert(s[0] == h[0]);
        assert(s.last() == rt.last());
        assert forall|i: int| 0 <= i < s.len() implies is_hex_digit(#[trigger] s[i]) || s[i] == ':' by {
            if i < h.len() {
                assert(s[i] == h[i]);
            } else if i > h.len() {
                assert(s[i] == rt[i - h.len() - 1]);
            }
        }
        assert forall|i: int| 0 <= i && i + 1 < s.len() && #[trigger] s[i] == ':' implies s[i + 1] != ':' by {
            if i < h.len() {
                assert(s[i] == h[i]);
                assert(is_hex_digit(h[i]));
            } else if i == h.len() {
                assert(s[i + 1] == rt[0]);
            } else {
                assert(s[i] == rt[i - h.len() - 1]);
                assert(s[i + 1] == rt[i - h.len()]);
            }
        }
    }
}

/// A hex text is no dotted IPv4 address.
pub proof fn lemma_hex_not_ipv4(v: u16)
    ensures
        spec_parse_ipv4(hex_text(v as nat)) is None,
{
    let h = hex_text(v as nat);
    lemma_hex_text(v as nat);
    assert(!h.contains('.')) by {
        if h.contains('.') {
            let k = choose|k: int| 0 <= k < h.len() && h[k] == '.';
            assert(is_hex_digit(h[k]));
        }
    }
    lemma_split_without(h, '.');
}

/// Groups joined by colons read back as those groups, also where a dotted
/// IPv4 address is allowed at the end.
pub proof fn lemma_fields_of_groups_text(gs: Seq<u16>)
    requires
        gs.len() >= 1,
    ensures
        fields_of(split_on(groups_text(gs), ':')) == Some(gs),
        groups_of(split_on(groups_text(gs), ':')) == Some(gs),
{
    lemma_groups_text(gs);
    let parts = hex_texts(gs);
    assert(parts.last() == hex_text(gs.last() as nat));
    lemma_hex_not_ipv4(gs.last());
}

/// Text with single colons only has no `::`.
pub proof fn lemma_no_double_colon(s: Seq<char>)
    requires
        colon_separated(s),
    ensures
        double_colon(s) == -1,
{
    assert forall|k: int| 0 <= k && k + 1 < s.len() && (-1 < 0 || k < -1) implies !(#[trigger] s[k] == ':' && s[k + 1] == ':') by {
        if s[k] == ':' {
            assert(s[k + 1] != ':');
        }
    }
    lemma_double_colon_is(s, -1);
}

/// A run of `n` zero groups starting at `i` is all zeros.
pub proof fn lemma_zero_run_zeros(gs: Seq<u16>, i: int, k: int)
    requires
        0 <= i,
        0 <= k < zero_run(gs, i),
    ensures
        i + k < gs.len(),
        gs[i + k] == 0,
    decreases k,
{
    if k > 0 {
        lemma_zero_run_zeros(gs, i + 1, k - 1);
    }
}

} // verus!
