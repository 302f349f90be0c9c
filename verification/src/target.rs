//! The optional application-layer target: `host[:port]` or `ip[:port]`.

use vstd::prelude::*;
use crate::addr::{
    ip_text, parse_ip_range, parse_socket_range, spec_parse_ip, spec_parse_socket, write_ip,
    IpAddr,
};
use crate::text::{
    chars_of, decimal, find_char, index_of, last_index_of, parse_u16_text, push_char, push_str,
    rfind_char, string_from_range, trim, trim_range, u16_from_text, write_decimal,
};

verus! {

/// The port used when the target names none.
pub const DEFAULT_PORT: u16 = 443;

/// The target checked at the application layer.
#[derive(Debug, PartialEq, Eq)]
pub enum Target {
    Host { host: String, port: u16 },
    Ip { addr: IpAddr, port: u16 },
}

/// What a target denotes.
pub enum TargetView {
    Host { host: Seq<char>, port: u16 },
    Ip { addr: IpAddr, port: u16 },
}

impl View for Target {
    type V = TargetView;

    open spec fn view(&self) -> TargetView {
        match self {
            Target::Host { host, port } => TargetView::Host { host: host@, port: *port },
            Target::Ip { addr, port } => TargetView::Ip { addr: *addr, port: *port },
        }
    }
}

/// The message for an empty target.
pub open spec fn empty_target_message() -> Seq<char> {
    "пустая цель"@
}

/// How target text reads, once trimmed: empty is an error; then, in order,
/// socket-address text (`ip:port`, `[ipv6]:port`), a bare IP address (port
/// 443), `host:port` when the part after the last colon is a port and the
/// host is non-empty and has no colon, and else the whole text as a host
/// (port 443).
pub open spec fn spec_parse_target(input: Seq<char>) -> Option<TargetView> {
    let s = trim(input);
    if s.len() == 0 {
        None
    } else if spec_parse_socket(s) is Some {
        let (a, p) = spec_parse_socket(s)->0;
        Some(TargetView::Ip { addr: a, port: p })
    } else if spec_parse_ip(s) is Some {
        Some(TargetView::Ip { addr: spec_parse_ip(s)->0, port: DEFAULT_PORT })
    } else {
        let k = last_index_of(s, ':');
        if k > 0 && index_of(s.take(k), ':') < 0 && u16_from_text(s.skip(k + 1)) is Some {
            Some(TargetView::Host { host: s.take(k), port: u16_from_text(s.skip(k + 1))->0 })
        } else {
            Some(TargetView::Host { host: s, port: DEFAULT_PORT })
        }
    }
}

/// `host:port` or `ip:port` (an IPv6 address unbracketed).
pub open spec fn spec_display_name(t: TargetView) -> Seq<char> {
    match t {
        TargetView::Host { host, port } => host + seq![':'] + decimal(port as nat),
        TargetView::Ip { addr, port } => ip_text(addr) + seq![':'] + decimal(port as nat),
    }
}

/// `host:port`, `a.b.c.d:port`, or `[ipv6]:port`.
pub open spec fn spec_connect_addr(t: TargetView) -> Seq<char> {
    match t {
        TargetView::Ip { addr: IpAddr::V6(g), port } => seq!['['] + ip_text(IpAddr::V6(g)) + seq![']', ':']
            + decimal(port as nat),
        _ => spec_display_name(t),
    }
}

impl Default for Target {
    /// `ya.ru:443`.
    fn default() -> (t: Target)
        ensures
            t@ == (TargetView::Host { host: "ya.ru"@, port: DEFAULT_PORT }),
    {
        Target::Host { host: String::from_str("ya.ru"), port: DEFAULT_PORT }
    }
}

impl Target {
    /// Parses `host`, `host:port`, `ip`, `ip:port`, `[ipv6]:port` (the input
    /// trimmed first). The port defaults to 443. Empty input is an error.
    pub fn parse(input: &str) -> (r: Result<Target, String>)
        ensures
            match r {
                Ok(t) => spec_parse_target(input@) == Some(t@),
                Err(e) => spec_parse_target(input@) is None && e@ == empty_target_message(),
            },
    {
        let t = chars_of(input);
        let n = t.len();
        assert(t@.subrange(0, n as int) =~= input@);
        let (a, b) = trim_range(t.as_slice(), 0, n);
        let ghost s = t@.subrange(a as int, b as int);
        if a == b {
            return Err(String::from_str("пустая цель"));
        }
        match parse_socket_range(t.as_slice(), a, b) {
            Some((addr, port)) => return Ok(Target::Ip { addr, port }),
            None => {},
        }
        match parse_ip_range(t.as_slice(), a, b) {
            Some(addr) => return Ok(Target::Ip { addr, port: DEFAULT_PORT }),
            None => {},
        }
        match rfind_char(t.as_slice(), a, b, ':') {
            Some(k) => {
                assert(s.take(k - a) =~= t@.subrange(a as int, k as int));
                assert(s.skip(k - a + 1) =~= t@.subrange(k + 1, b as int));
                if k > a && find_char(t.as_slice(), a, k, ':').is_none() {
                    match parse_u16_text(t.as_slice(), k + 1, b) {
                        Some(port) => {
                            let host = string_from_range(t.as_slice(), a, k);
                            return Ok(Target::Host { host, port });
                        },
                        None => {},
                    }
                }
            },
            None => {},
        }
        let host = string_from_range(t.as_slice(), a, b);
        Ok(Target::Host { host, port: DEFAULT_PORT })
    }

    /// The host name of a host target; `None` for an IP target.
    pub fn host(&self) -> (r: Option<&str>)
        ensures
            match self@ {
                TargetView::Host { host, .. } => r is Some && r->0@ == host,
                TargetView::Ip { .. } => r is None,
            },
    {
        match self {
            Target::Host { host, .. } => Some(host.as_str()),
            Target::Ip { .. } => None,
        }
    }

    /// The name for the output row: `host:port` / `ip:port`.
    pub fn display_name(&self) -> (s: String)
        ensures
            s@ == spec_display_name(self@),
    {
        let mut s = String::new();
        match self {
            Target::Host { host, port } => {
                push_str(&mut s, host.as_str());
                push_char(&mut s, ':');
                write_decimal(&mut s, *port as u128);
            },
            Target::Ip { addr, port } => {
                write_ip(&mut s, addr);
                push_char(&mut s, ':');
                write_decimal(&mut s, *port as u128);
            },
        }
        assert(s@ =~= spec_display_name(self@));
        s
    }

    /// The address to connect to: `host:port`, with an IPv6 address in brackets.
    pub fn connect_addr(&self) -> (s: String)
        ensures
            s@ == spec_connect_addr(self@),
    {
        match self {
            Target::Ip { addr: IpAddr::V6(g), port } => {
                let mut s = String::new();
                push_char(&mut s, '[');
                write_ip(&mut s, &IpAddr::V6(*g));
                push_char(&mut s, ']');
                push_char(&mut s, ':');
                write_decimal(&mut s, *port as u128);
                assert(s@ =~= spec_connect_addr(self@));
                s
            },
            _ => self.display_name(),
        }
    }
}

} // verus!
