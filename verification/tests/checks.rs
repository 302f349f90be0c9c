use check_inet::checks::{
    application_request, classify_captive, classify_http, probe_captive, probe_gateway, probe_local_ip,
    reachable_from_result, AppRequest, HttpError,
};
use check_inet::addr::IpAddr;
use check_inet::net::{IoError, IoErrorKind};
use check_inet::target::Target;
use std::io;

fn io_error(kind: io::ErrorKind, model: IoErrorKind) -> IoError {
    IoError { kind: model, message: io::Error::from(kind).to_string() }
}

#[test]
fn ok_response_is_success() {
    assert_eq!(classify_http(Ok::<(), HttpError>(())), (true, None));
}

#[test]
fn status_4xx_is_success() {
    let result: Result<(), _> = Err(HttpError::StatusCode(404));
    assert_eq!(classify_http(result), (true, None));
}

#[test]
fn status_5xx_is_success() {
    let result: Result<(), _> = Err(HttpError::StatusCode(503));
    assert_eq!(classify_http(result), (true, None));
}

#[test]
fn transport_error_is_failure_with_message() {
    let result: Result<(), _> = Err(HttpError::Transport(ureq::Error::HostNotFound.to_string()));
    let (success, error) = classify_http(result);
    assert!(!success);
    assert!(error.is_some());
    assert!(!error.unwrap().is_empty());
}

#[test]
fn timeout_is_failure_without_message() {
    let result: Result<(), _> = Err(HttpError::Timeout);
    assert_eq!(classify_http(result), (false, None));
}

#[test]
fn reachability_counts_refused_as_success() {
    let ok: Result<(), IoError> = Ok(());
    assert_eq!(reachable_from_result(&ok), (true, None));
    let refused: Result<(), IoError> = Err(io_error(io::ErrorKind::ConnectionRefused, IoErrorKind::ConnectionRefused));
    assert_eq!(reachable_from_result(&refused), (true, None));
}

#[test]
fn reachability_counts_timeout_as_failure() {
    let t: Result<(), IoError> = Err(io_error(io::ErrorKind::TimedOut, IoErrorKind::TimedOut));
    let (success, error) = reachable_from_result(&t);
    assert!(!success);
    assert_eq!(error, None);
}

#[test]
fn reachability_reports_other_errors() {
    let e: Result<(), IoError> = Err(io_error(io::ErrorKind::PermissionDenied, IoErrorKind::PermissionDenied));
    let (success, error) = reachable_from_result(&e);
    assert!(!success);
    assert!(error.is_some());
}

#[test]
fn captive_204_means_no_portal() {
    assert!(classify_captive(Some(204)));
}

#[test]
fn captive_non_204_means_portal() {
    assert!(!classify_captive(Some(200)));
    assert!(!classify_captive(Some(302)));
}

#[test]
fn captive_no_response_is_inconclusive_ok() {
    assert!(classify_captive(None));
}

#[test]
fn gateway_without_route_reports_no_route() {
    let o = probe_gateway(None, 7);
    assert_eq!(o.name, "<no route>");
    assert!(!o.success);
    assert_eq!(o.error.as_deref(), Some("No route"));
    let o = probe_gateway(Some(([192, 168, 1, 1], Err(io_error(io::ErrorKind::ConnectionReset, IoErrorKind::ConnectionReset)))), 7);
    assert_eq!(o.name, "192.168.1.1");
    assert!(o.success);
}

#[test]
fn captive_outcome_names_the_portal() {
    let o = probe_captive(Some(302), 1);
    assert!(!o.success);
    assert_eq!(o.name, "captive-portal");
    assert_eq!(o.error.as_deref(), Some("сеть требует авторизации (captive portal)"));
    assert!(probe_captive(Some(204), 1).error.is_none());
}

#[test]
fn local_ip_outcome_names_the_address() {
    assert_eq!(probe_local_ip(Some(IpAddr::V4([10, 216, 1, 4])), 0).name, "10.216.1.4");
    let o = probe_local_ip(None, 0);
    assert_eq!(o.name, "<no local ip>");
    assert_eq!(o.error.as_deref(), Some("нет локального адреса (линк/DHCP)"));
}

#[test]
fn application_request_follows_the_target() {
    match application_request(&Target::default()) {
        AppRequest::Https(url) => assert_eq!(url, "https://ya.ru:443"),
        AppRequest::Tcp(..) => panic!("a host target is fetched over HTTPS"),
    }
    match application_request(&Target::parse("10.255.255.1:443").unwrap()) {
        AppRequest::Tcp(a, p) => {
            assert_eq!(a, IpAddr::V4([10, 255, 255, 1]));
            assert_eq!(p, 443);
        }
        AppRequest::Https(_) => panic!("an IP target gets a TCP connect"),
    }
}
