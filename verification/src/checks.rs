//! The probes' decisions: what a connection attempt, an HTTP exchange or a
//! portal check means for a stage, and the outcome row of each probe.

use vstd::prelude::*;
use crate::addr::{ip_text, ipv4_text, write_ipv4, IpAddr};
use crate::check::{io_error_text, opt_text, outcome_is, spec_io_error_text, CheckOutcome};
use crate::net::{kind_is_reachable, spec_kind_is_reachable, IoError};
use crate::target::{spec_connect_addr, spec_display_name, Target};

verus! {

/// How a TCP connect reads as reachability: success, or a refusal or reset
/// (the host answered), is reachable with no error; a timeout is a failure
/// without text (rendered `Timeout`); anything else is a failure with the
/// error's text.
pub open spec fn spec_reachable<T>(result: Result<T, IoError>) -> (bool, Option<Seq<char>>) {
    match result {
        Ok(_) => (true, None),
        Err(e) => if spec_kind_is_reachable(e.kind) {
            (true, None)
        } else {
            (false, spec_io_error_text(e))
        },
    }
}

/// Classifies the result of a TCP connect as reachability.
pub fn reachable_from_result<T>(result: &Result<T, IoError>) -> (r: (bool, Option<String>))
    ensures
        (r.0, opt_text(r.1)) == spec_reachable(*result),
{
    match result {
        Ok(_) => (true, None),
        Err(err) => {
            if kind_is_reachable(err.kind) {
                (true, None)
            } else {
                (false, io_error_text(err))
            }
        },
    }
}

/// How a real connection attempt reads (a closed port is a failure):
/// success, or failure with the error's text (`None` for a timeout).
pub open spec fn spec_connected<T>(result: Result<T, IoError>) -> (bool, Option<Seq<char>>) {
    match result {
        Ok(_) => (true, None),
        Err(e) => (false, spec_io_error_text(e)),
    }
}

/// Classifies the result of a connection that must succeed.
pub fn connected_from_result<T>(result: &Result<T, IoError>) -> (r: (bool, Option<String>))
    ensures
        (r.0, opt_text(r.1)) == spec_connected(*result),
{
    match result {
        Ok(_) => (true, None),
        Err(err) => (false, io_error_text(err)),
    }
}

/// The outcome of a reachability probe of `name`.
pub fn reachability_outcome(name: String, result: &Result<(), IoError>, elapsed_nanos: u128) -> (o: CheckOutcome)
    ensures
        outcome_is(o, name@, spec_reachable(*result).0, elapsed_nanos, spec_reachable(*result).1),
{
    let (success, error) = reachable_from_result(result);
    CheckOutcome { name, success, elapsed_nanos, error }
}

/// The gateway stage: with a default gateway, the reachability of the
/// gateway (named by its address); without one, `<no route>` failing with
/// `No route`.
pub fn probe_gateway(route: Option<([u8; 4], Result<(), IoError>)>, elapsed_nanos: u128) -> (o: CheckOutcome)
    ensures
        match route {
            Some((gw, result)) => outcome_is(
                o,
                ipv4_text(gw),
                spec_reachable(result).0,
                elapsed_nanos,
                spec_reachable(result).1,
            ),
            None => outcome_is(o, "<no route>"@, false, elapsed_nanos, Some("No route"@)),
        },
{
    match route {
        Some((gw, result)) => {
            let mut name = String::new();
            write_ipv4(&mut name, gw);
            assert(name@ =~= ipv4_text(gw));
            reachability_outcome(name, &result, elapsed_nanos)
        },
        None => CheckOutcome {
            name: String::from_str("<no route>"),
            success: false,
            elapsed_nanos,
            error: Some(String::from_str("No route")),
        },
    }
}

/// The internet stage: the reachability of the public anchor `8.8.8.8`.
pub fn probe_internet(result: &Result<(), IoError>, elapsed_nanos: u128) -> (o: CheckOutcome)
    ensures
        outcome_is(o, "8.8.8.8"@, spec_reachable(*result).0, elapsed_nanos, spec_reachable(*result).1),
{
    reachability_outcome(String::from_str("8.8.8.8"), result, elapsed_nanos)
}

/// A failed HTTP exchange.
#[derive(Debug, Clone)]
pub enum HttpError {
    /// A response arrived with this error status (4xx or 5xx).
    StatusCode(u16),
    /// The exchange timed out.
    Timeout,
    /// Any transport failure (DNS, TLS, connect, protocol), with its text.
    Transport(String),
}

/// How an HTTP exchange reads: any response, error statuses included, is a
/// success; a timeout fails without text; any other failure fails with its
/// text.
pub open spec fn spec_classify_http<T>(result: Result<T, HttpError>) -> (bool, Option<Seq<char>>) {
    match result {
        Ok(_) => (true, None),
        Err(HttpError::StatusCode(_)) => (true, None),
        Err(HttpError::Timeout) => (false, None),
        Err(HttpError::Transport(m)) => (false, Some(m@)),
    }
}

/// Classifies the result of an HTTP request as `(success, error)`.
pub fn classify_http<T>(result: Result<T, HttpError>) -> (r: (bool, Option<String>))
    ensures
        (r.0, opt_text(r.1)) == spec_classify_http(result),
{
    match result {
        Ok(_) => (true, None),
        Err(HttpError::StatusCode(_)) => (true, None),
        Err(HttpError::Timeout) => (false, None),
        Err(HttpError::Transport(m)) => (false, Some(m)),
    }
}

/// What the application stage does for a target.
pub enum AppRequest {
    /// An HTTPS GET of this URL (for a host target).
    Https(String),
    /// A TCP connect to this address (for an IP target).
    Tcp(IpAddr, u16),
}

/// The application stage's request: a host target is fetched over HTTPS at
/// `https://` followed by its connect address (`host:port`); an IP target
/// gets a TCP connect to its address and port.
pub fn application_request(target: &Target) -> (r: AppRequest)
    ensures
        match (target@, r) {
            (crate::target::TargetView::Host { .. }, AppRequest::Https(url)) => url@ == "https://"@
                + spec_connect_addr(target@),
            (crate::target::TargetView::Ip { addr, port }, AppRequest::Tcp(a, p)) => a == addr && p
                == port,
            _ => false,
        },
{
    match target {
        Target::Host { .. } => {
            let mut url = String::from_str("https://");
            let addr = target.connect_addr();
            url.append(addr.as_str());
            AppRequest::Https(url)
        },
        Target::Ip { addr, port } => AppRequest::Tcp(*addr, *port),
    }
}

/// What came of the application stage's request.
pub enum AppAttempt {
    Https(Result<(), HttpError>),
    Tcp(Result<(), IoError>),
}

/// How the application stage reads: an HTTPS attempt as `classify_http`;
/// a TCP attempt must connect (a closed port is a failure).
pub open spec fn spec_app_result(attempt: AppAttempt) -> (bool, Option<Seq<char>>) {
    match attempt {
        AppAttempt::Https(r) => spec_classify_http(r),
        AppAttempt::Tcp(r) => spec_connected(r),
    }
}

/// The application stage's outcome, named after the target.
pub fn probe_application(target: &Target, attempt: AppAttempt, elapsed_nanos: u128) -> (o: CheckOutcome)
    ensures
        outcome_is(
            o,
            spec_display_name(target@),
            spec_app_result(attempt).0,
            elapsed_nanos,
            spec_app_result(attempt).1,
        ),
{
    let (success, error) = match attempt {
        AppAttempt::Https(r) => classify_http(r),
        AppAttempt::Tcp(r) => connected_from_result(&r),
    };
    CheckOutcome { name: target.display_name(), success, elapsed_nanos, error }
}

/// The local-IP stage: the address found (named by its text), or
/// `<no local ip>` failing with a link/DHCP message.
pub fn probe_local_ip(ip: Option<IpAddr>, elapsed_nanos: u128) -> (o: CheckOutcome)
    ensures
        match ip {
            Some(a) => outcome_is(o, ip_text(a), true, elapsed_nanos, None),
            None => outcome_is(
                o,
                "<no local ip>"@,
                false,
                elapsed_nanos,
                Some("нет локального адреса (линк/DHCP)"@),
            ),
        },
{
    match ip {
        Some(a) => CheckOutcome { name: a.to_text(), success: true, elapsed_nanos, error: None },
        None => CheckOutcome {
            name: String::from_str("<no local ip>"),
            success: false,
            elapsed_nanos,
            error: Some(String::from_str("нет локального адреса (линк/DHCP)")),
        },
    }
}

/// No portal when the answer is exactly 204, or when there is no answer at
/// all (inconclusive); any other status (200 with a body, a redirect) means a
/// portal intercepted the request.
pub open spec fn spec_classify_captive(status: Option<u16>) -> bool {
    match status {
        Some(s) => s == 204,
        None => true,
    }
}

/// Whether the portal check found no captive portal.
pub fn classify_captive(status: Option<u16>) -> (no_portal: bool)
    ensures
        no_portal == spec_classify_captive(status),
{
    match status {
        Some(204) => true,
        Some(_) => false,
        None => true,
    }
}

/// The captive-portal stage's outcome for the status of the plain-HTTP
/// `generate_204` request (`None` when no response came).
pub fn probe_captive(status: Option<u16>, elapsed_nanos: u128) -> (o: CheckOutcome)
    ensures
        outcome_is(
            o,
            "captive-portal"@,
            spec_classify_captive(status),
            elapsed_nanos,
            if spec_classify_captive(status) {
                None
            } else {
                Some("сеть требует авторизации (captive portal)"@)
            },
        ),
{
    let no_portal = classify_captive(status);
    let error = if no_portal {
        None
    } else {
        Some(String::from_str("сеть требует авторизации (captive portal)"))
    };
    CheckOutcome { name: String::from_str("captive-portal"), success: no_portal, elapsed_nanos, error }
}

/// The informational IPv6 probe's outcome for a TCP connect to a public
/// IPv6 address.
pub fn probe_ipv6(result: &Result<(), IoError>, elapsed_nanos: u128) -> (o: CheckOutcome)
    ensures
        outcome_is(o, "ipv6"@, spec_connected(*result).0, elapsed_nanos, spec_connected(*result).1),
{
    let (success, error) = connected_from_result(result);
    CheckOutcome { name: String::from_str("ipv6"), success, elapsed_nanos, error }
}

} // verus!
