use check_inet::diag::{exit_code, root_cause, verdict_line, DiagReport, Stage};

#[test]
fn healthy_exits_zero() {
    assert_eq!(exit_code(None), 0);
}

#[test]
fn stage_maps_to_its_number() {
    assert_eq!(exit_code(Some(Stage::LocalIp)), 1);
    assert_eq!(exit_code(Some(Stage::Gateway)), 2);
    assert_eq!(exit_code(Some(Stage::Internet)), 3);
    assert_eq!(exit_code(Some(Stage::Dns)), 4);
    assert_eq!(exit_code(Some(Stage::Application)), 5);
    assert_eq!(exit_code(Some(Stage::CaptivePortal)), 6);
}

fn healthy() -> DiagReport {
    DiagReport { local_ip: true, gateway: true, internet: true, dns: true, application: true, captive_ok: true }
}

#[test]
fn all_pass_no_root() {
    assert_eq!(root_cause(&healthy()), None);
}

#[test]
fn first_failure_bottom_up() {
    let r = DiagReport { local_ip: false, ..healthy() };
    assert_eq!(root_cause(&r), Some(Stage::LocalIp));

    let r = DiagReport { gateway: false, ..healthy() };
    assert_eq!(root_cause(&r), Some(Stage::Gateway));

    let r = DiagReport { internet: false, ..healthy() };
    assert_eq!(root_cause(&r), Some(Stage::Internet));

    let r = DiagReport { dns: false, ..healthy() };
    assert_eq!(root_cause(&r), Some(Stage::Dns));

    let r = DiagReport { application: false, ..healthy() };
    assert_eq!(root_cause(&r), Some(Stage::Application));
}

#[test]
fn lower_stage_wins_over_higher() {
    let r = DiagReport { gateway: false, application: false, ..healthy() };
    assert_eq!(root_cause(&r), Some(Stage::Gateway));
}

#[test]
fn captive_portal_takes_priority_over_application() {
    let r = DiagReport { application: false, captive_ok: false, ..healthy() };
    assert_eq!(root_cause(&r), Some(Stage::CaptivePortal));
}

#[test]
fn lower_stage_wins_over_captive() {
    let r = DiagReport { internet: false, captive_ok: false, ..healthy() };
    assert_eq!(root_cause(&r), Some(Stage::Internet));
}

#[test]
fn verdict_mentions_stage() {
    assert!(verdict_line(None).contains("здоров") || verdict_line(None).contains("ok"));
    assert!(verdict_line(Some(Stage::Dns)).contains("[4]"));
    assert!(verdict_line(Some(Stage::CaptivePortal)).contains("[6]"));
}

#[test]
fn verdict_for_application_matches_readme_example() {
    assert_eq!(
        verdict_line(Some(Stage::Application)),
        "корень: [5] уровень приложения — TLS/HTTP до цели не отвечает"
    );
    let r = DiagReport { application: false, ..healthy() };
    assert_eq!(exit_code(root_cause(&r)), 5);
}
