use check_inet::addr::IpAddr;
use check_inet::net::{kind_is_reachable, local_ip, IoErrorKind};

#[test]
fn refused_means_reachable() {
    assert!(kind_is_reachable(IoErrorKind::ConnectionRefused));
    assert!(kind_is_reachable(IoErrorKind::ConnectionReset));
}

#[test]
fn timeout_and_unreachable_mean_not_reachable() {
    assert!(!kind_is_reachable(IoErrorKind::TimedOut));
    assert!(!kind_is_reachable(IoErrorKind::HostUnreachable));
    assert!(!kind_is_reachable(IoErrorKind::NetworkUnreachable));
}

#[test]
fn unspecified_local_address_means_no_link() {
    assert_eq!(local_ip(Some(IpAddr::V4([0, 0, 0, 0]))), None);
    assert_eq!(local_ip(Some(IpAddr::V6([0; 8]))), None);
    assert_eq!(local_ip(Some(IpAddr::V4([10, 0, 0, 5]))), Some(IpAddr::V4([10, 0, 0, 5])));
    assert_eq!(local_ip(None), None);
}
