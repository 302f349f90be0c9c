//! The diagnosis ladder: stages, root cause, verdict text and exit codes.

use vstd::prelude::*;

verus! {

/// A connectivity stage. When a stage is the root cause, the process exits
/// with the stage's number.
#[derive(Debug, Clone, Copy, PartialEq, Eq, Structural)]
pub enum Stage {
    LocalIp,
    Gateway,
    Internet,
    Dns,
    Application,
    CaptivePortal,
}

/// The number of a stage, bottom-up from 1.
pub open spec fn stage_number(s: Stage) -> u8 {
    match s {
        Stage::LocalIp => 1,
        Stage::Gateway => 2,
        Stage::Internet => 3,
        Stage::Dns => 4,
        Stage::Application => 5,
        Stage::CaptivePortal => 6,
    }
}

/// Healthy gives 0; a root cause gives the number of its stage.
pub open spec fn spec_exit_code(stage: Option<Stage>) -> u8 {
    match stage {
        None => 0,
        Some(s) => stage_number(s),
    }
}

/// Exit code: 0 when healthy (`None`), else the number of the root-cause stage.
pub fn exit_code(stage: Option<Stage>) -> (code: u8)
    ensures
        code == spec_exit_code(stage),
{
    match stage {
        None => 0,
        Some(Stage::LocalIp) => 1,
        Some(Stage::Gateway) => 2,
        Some(Stage::Internet) => 3,
        Some(Stage::Dns) => 4,
        Some(Stage::Application) => 5,
        Some(Stage::CaptivePortal) => 6,
    }
}

/// Probe results: `true` = the stage passed. `captive_ok == false` means that a
/// captive portal was detected.
pub struct DiagReport {
    pub local_ip: bool,
    pub gateway: bool,
    pub internet: bool,
    pub dns: bool,
    pub application: bool,
    pub captive_ok: bool,
}

/// The first failed stage, bottom-up; a captive portal outranks the
/// application stage, since a portal shows up as a failing application.
pub open spec fn spec_root_cause(r: DiagReport) -> Option<Stage> {
    if !r.local_ip {
        Some(Stage::LocalIp)
    } else if !r.gateway {
        Some(Stage::Gateway)
    } else if !r.internet {
        Some(Stage::Internet)
    } else if !r.dns {
        Some(Stage::Dns)
    } else if !r.captive_ok {
        Some(Stage::CaptivePortal)
    } else if !r.application {
        Some(Stage::Application)
    } else {
        None
    }
}

/// Whether stage `s` passed in report `r`.
pub open spec fn stage_passed(r: DiagReport, s: Stage) -> bool {
    match s {
        Stage::LocalIp => r.local_ip,
        Stage::Gateway => r.gateway,
        Stage::Internet => r.internet,
        Stage::Dns => r.dns,
        Stage::Application => r.application,
        Stage::CaptivePortal => r.captive_ok,
    }
}

/// The order in which stages are examined: the captive portal is examined
/// before the application.
pub open spec fn stage_rank(s: Stage) -> int {
    match s {
        Stage::LocalIp => 1,
        Stage::Gateway => 2,
        Stage::Internet => 3,
        Stage::Dns => 4,
        Stage::CaptivePortal => 5,
        Stage::Application => 6,
    }
}

/// The first failed stage bottom-up (a captive portal takes priority over
/// the application stage); `None` when every stage passed.
pub fn root_cause(r: &DiagReport) -> (res: Option<Stage>)
    ensures
        res == spec_root_cause(*r),
{
    if !r.local_ip {
        return Some(Stage::LocalIp);
    }
    if !r.gateway {
        return Some(Stage::Gateway);
    }
    if !r.internet {
        return Some(Stage::Internet);
    }
    if !r.dns {
        return Some(Stage::Dns);
    }
    if !r.captive_ok {
        return Some(Stage::CaptivePortal);
    }
    if !r.application {
        return Some(Stage::Application);
    }
    None
}

/// The human-readable verdict line for a root cause.
pub open spec fn spec_verdict_line(stage: Option<Stage>) -> Seq<char> {
    match stage {
        None => "вердикт: связь здорова"@,
        Some(Stage::LocalIp) => "корень: [1] нет локального IP — линк/DHCP не выдал адрес"@,
        Some(Stage::Gateway) => "корень: [2] шлюз недостижим — проблема в локальной сети/роутере"@,
        Some(Stage::Internet) => "корень: [3] нет выхода в интернет — публичный IP недостижим (маршрут/ISP)"@,
        Some(Stage::Dns) => "корень: [4] DNS не работает — имена не резолвятся"@,
        Some(Stage::Application) => "корень: [5] уровень приложения — TLS/HTTP до цели не отвечает"@,
        Some(Stage::CaptivePortal) => "корень: [6] captive portal — сеть требует авторизации"@,
    }
}

/// Human-readable verdict line for a root cause.
pub fn verdict_line(stage: Option<Stage>) -> (line: String)
    ensures
        line@ == spec_verdict_line(stage),
{
    match stage {
        None => String::from_str("вердикт: связь здорова"),
        Some(Stage::LocalIp) => String::from_str(
            "корень: [1] нет локального IP — линк/DHCP не выдал адрес",
        ),
        Some(Stage::Gateway) => String::from_str(
            "корень: [2] шлюз недостижим — проблема в локальной сети/роутере",
        ),
        Some(Stage::Internet) => String::from_str(
            "корень: [3] нет выхода в интернет — публичный IP недостижим (маршрут/ISP)",
        ),
        Some(Stage::Dns) => String::from_str("корень: [4] DNS не работает — имена не резолвятся"),
        Some(Stage::Application) => String::from_str(
            "корень: [5] уровень приложения — TLS/HTTP до цели не отвечает",
        ),
        Some(Stage::CaptivePortal) => String::from_str(
            "корень: [6] captive portal — сеть требует авторизации",
        ),
    }
}

} // verus!
