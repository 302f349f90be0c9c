//! The result of one check and its one-line rendering.

use vstd::prelude::*;
use crate::net::{IoError, IoErrorKind};
use crate::text::{decimal, pad_right, pad_zeros, push_char, push_str, write_decimal, write_repeat};

verus! {

/// Outcome of one connectivity check.
pub struct CheckOutcome {
    /// Display name (the gateway's IP, `8.8.8.8`, the target, or `<no route>`).
    pub name: String,
    pub success: bool,
    /// Time the check took, in nanoseconds.
    pub elapsed_nanos: u128,
    /// Error text on failure. `None` on failure means a timeout (rendered as
    /// `Timeout`).
    pub error: Option<String>,
}

/// Width of the name column.
pub const NAME_WIDTH: usize = 13;

/// The elapsed time in ten-thousandths of a second, rounded half up.
pub open spec fn tenths_of_millis(nanos: nat) -> nat {
    nanos / 100000 + (if nanos % 100000 >= 50000 { 1nat } else { 0nat })
}

/// Seconds with exactly four decimals, e.g. `0.0032`.
pub open spec fn seconds_text(nanos: nat) -> Seq<char> {
    let units = tenths_of_millis(nanos);
    decimal(units / 10000) + seq!['.'] + pad_zeros(decimal(units % 10000), 4)
}

/// The status sigil.
pub open spec fn sigil(success: bool) -> Seq<char> {
    if success {
        "🟢"@
    } else {
        "🛑"@
    }
}

/// The tail of a failed row: the error text, or `Timeout` when there is none.
pub open spec fn failure_text(error: Option<String>) -> Seq<char> {
    match error {
        Some(e) => e@,
        None => "Timeout"@,
    }
}

/// `{name:<13} | {sigil} | {seconds:.4}`, followed by ` | {error|Timeout}` on failure.
pub open spec fn spec_row(name: Seq<char>, success: bool, nanos: nat, error: Option<String>) -> Seq<char> {
    let head = pad_right(name, NAME_WIDTH as nat) + " | "@ + sigil(success) + " | "@ + seconds_text(nanos);
    if success {
        head
    } else {
        head + " | "@ + failure_text(error)
    }
}

impl CheckOutcome {
    /// The row `{name:<13} | {sigil} | {seconds:.4}[ | {error|Timeout}]`:
    /// the name left-aligned in 13 characters, 🟢 or 🛑, the elapsed seconds
    /// with four decimals, and on failure the error text or `Timeout`.
    pub fn row(&self) -> (r: String)
        ensures
            r@ == spec_row(self.name@, self.success, self.elapsed_nanos as nat, self.error),
    {
        let mut row = String::new();
        let name = self.name.as_str();
        push_str(&mut row, name);
        let len = name.unicode_len();
        if len < NAME_WIDTH {
            write_repeat(&mut row, ' ', NAME_WIDTH - len);
        }
        push_str(&mut row, " | ");
        if self.success {
            push_str(&mut row, "🟢");
        } else {
            push_str(&mut row, "🛑");
        }
        push_str(&mut row, " | ");
        write_seconds(&mut row, self.elapsed_nanos);
        if !self.success {
            push_str(&mut row, " | ");
            match &self.error {
                Some(e) => push_str(&mut row, e.as_str()),
                None => push_str(&mut row, "Timeout"),
            }
        }
        assert(row@ =~= spec_row(self.name@, self.success, self.elapsed_nanos as nat, self.error));
        row
    }
}

proof fn lemma_decimal_len_small(n: nat)
    requires
        n < 10000,
    ensures
        n < 10 ==> decimal(n).len() == 1,
        10 <= n < 100 ==> decimal(n).len() == 2,
        100 <= n < 1000 ==> decimal(n).len() == 3,
        1000 <= n ==> decimal(n).len() == 4,
{
    reveal_with_fuel(decimal, 4);
}

/// Appends `seconds_text(nanos)`.
fn write_seconds(out: &mut String, nanos: u128)
    ensures
        final(out)@ == old(out)@ + seconds_text(nanos as nat),
{
    let half: u128 = if nanos % 100000 >= 50000 { 1 } else { 0 };
    let units: u128 = nanos / 100000 + half;
    let whole: u128 = units / 10000;
    let frac: u128 = units % 10000;
    write_decimal(out, whole);
    push_char(out, '.');
    proof {
        lemma_decimal_len_small(frac as nat);
    }
    if frac < 10 {
        write_repeat(out, '0', 3);
    } else if frac < 100 {
        write_repeat(out, '0', 2);
    } else if frac < 1000 {
        write_repeat(out, '0', 1);
    }
    write_decimal(out, frac);
    assert(out@ =~= old(out)@ + seconds_text(nanos as nat));
}

/// The display text of a network error: `None` for a timeout (rendered as
/// `Timeout`), otherwise the error's message.
pub open spec fn spec_io_error_text(err: IoError) -> Option<Seq<char>> {
    if err.kind == IoErrorKind::TimedOut {
        None
    } else {
        Some(err.message@)
    }
}

/// Converts a network error into output text: a timeout gives `None` (the
/// row shows `Timeout`), anything else its message.
pub fn io_error_text(err: &IoError) -> (r: Option<String>)
    ensures
        opt_text(r) == spec_io_error_text(*err),
{
    match err.kind {
        IoErrorKind::TimedOut => None,
        _ => Some(err.message.clone()),
    }
}

/// The text held by an optional string.
pub open spec fn opt_text(o: Option<String>) -> Option<Seq<char>> {
    match o {
        Some(s) => Some(s@),
        None => None,
    }
}

/// The outcome `o` has this name, status, time and error text.
pub open spec fn outcome_is(
    o: CheckOutcome,
    name: Seq<char>,
    success: bool,
    elapsed_nanos: u128,
    error: Option<Seq<char>>,
) -> bool {
    &&& o.name@ == name
    &&& o.success == success
    &&& o.elapsed_nanos == elapsed_nanos
    &&& opt_text(o.error) == error
}

} // verus!
