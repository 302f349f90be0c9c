//! The decisions of a run: the retry of the first phase and the escalation
//! to the diagnosis ladder.

use vstd::prelude::*;
use crate::check::{spec_row, CheckOutcome};
use crate::diag::DiagReport;
use crate::text::{decimal, push_str, write_decimal};

verus! {

/// The line printed before attempt `attempt` of `times`: `try i / times`,
/// only when more than one attempt is asked for.
pub open spec fn spec_attempt_banner(attempt: u32, times: u32) -> Option<Seq<char>> {
    if times > 1 {
        Some("try "@ + decimal(attempt as nat) + " / "@ + decimal(times as nat))
    } else {
        None
    }
}

/// The line announcing an attempt, if one is printed.
pub fn attempt_banner(attempt: u32, times: u32) -> (r: Option<String>)
    ensures
        match r {
            Some(s) => spec_attempt_banner(attempt, times) == Some(s@),
            None => spec_attempt_banner(attempt, times) is None,
        },
{
    if times > 1 {
        let mut s = String::from_str("try ");
        write_decimal(&mut s, attempt as u128);
        push_str(&mut s, " / ");
        write_decimal(&mut s, times as u128);
        Some(s)
    } else {
        None
    }
}

/// Whether every outcome succeeded.
pub open spec fn spec_all_passed(outcomes: Seq<CheckOutcome>) -> bool {
    forall|i: int| 0 <= i < outcomes.len() ==> (#[trigger] outcomes[i]).success
}

/// Whether every check of a phase succeeded.
pub fn all_passed(outcomes: &[CheckOutcome]) -> (r: bool)
    ensures
        r == spec_all_passed(outcomes@),
{
    let mut i: usize = 0;
    while i < outcomes.len()
        invariant
            i <= outcomes@.len(),
            forall|k: int| 0 <= k < i ==> (#[trigger] outcomes@[k]).success,
        decreases outcomes@.len() - i,
    {
        if !outcomes[i].success {
            return false;
        }
        i = i + 1;
    }
    true
}

/// Another attempt follows attempt `attempt` of `times` only when it failed
/// and attempts remain.
pub open spec fn spec_should_retry(attempt: u32, times: u32, all_ok: bool) -> bool {
    !all_ok && attempt < times
}

/// After attempt `attempt` (counted from 1) of `times`: try again only when
/// the attempt failed and attempts remain.
pub fn should_retry(attempt: u32, times: u32, all_ok: bool) -> (r: bool)
    ensures
        r == spec_should_retry(attempt, times, all_ok),
{
    !all_ok && attempt < times
}

/// The diagnosis report from the first phase (gateway, internet,
/// application, in this order) and the diagnosis probes.
pub fn diagnose(phase1: &[CheckOutcome], local: &CheckOutcome, dns_ok: bool, captive: &CheckOutcome) -> (r: DiagReport)
    requires
        phase1@.len() == 3,
    ensures
        r == (DiagReport {
            local_ip: local.success,
            gateway: phase1@[0].success,
            internet: phase1@[1].success,
            dns: dns_ok,
            application: phase1@[2].success,
            captive_ok: captive.success,
        }),
{
    DiagReport {
        local_ip: local.success,
        gateway: phase1[0].success,
        internet: phase1[1].success,
        dns: dns_ok,
        application: phase1[2].success,
        captive_ok: captive.success,
    }
}

/// The row of an informational check: its row marked `(информационно)`.
pub fn informational_row(o: &CheckOutcome) -> (s: String)
    ensures
        s@ == spec_row(o.name@, o.success, o.elapsed_nanos as nat, o.error) + " (информационно)"@,
{
    let mut s = o.row();
    push_str(&mut s, " (информационно)");
    s
}

} // verus!
