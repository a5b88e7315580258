//! The stream driver's decision step: what to do with one line that
//! was read, under the driver's termination and error policies. The
//! surrounding loop — reading standard input, running the sinks — is
//! the caller's; every decision it acts on is taken here.

use vstd::prelude::*;
use crate::text::str_eq;
use crate::transform::{hex2dec_line, spec_hex2dec, ParseOverflow};

verus! {

/// What the stream driver must do after one read from its input.
pub enum StepAction {
    /// Terminate with success: end of input, or a blank-line break.
    Stop,
    /// Hand the rewritten line to the success sink and continue.
    Emit(String),
    /// Hand the overflow to the error sink and continue.
    Report(ParseOverflow),
    /// Hand the overflow to the error sink and terminate with failure.
    ReportAndStop(ParseOverflow),
}

/// Decide one step of the stream driver.
///
/// `eof` says the read returned no bytes. `line` is the line just
/// read, its trailing newline retained; `newline` is the platform
/// newline sequence, for the blank-line comparison. The driver stops
/// on end of input, and on a blank line when `break_on_blank` is set,
/// before any transform. Otherwise the line is rewritten with
/// `skip_parse_errors` as the skip policy; a successful rewrite is
/// emitted, and an overflow is reported, stopping the driver only when
/// `stop_on_error` is set.
pub fn drive_step(
    eof: bool,
    line: &str,
    newline: &str,
    skip_parse_errors: bool,
    stop_on_error: bool,
    break_on_blank: bool,
) -> (a: StepAction)
    ensures
        (eof || (break_on_blank && line@ == newline@)) <==> a is Stop,
        !(eof || (break_on_blank && line@ == newline@)) ==> match spec_hex2dec(
            line@,
            skip_parse_errors,
        ) {
            Ok(t) => a matches StepAction::Emit(out) && out@ == t,
            Err(d) => {
                if stop_on_error {
                    a matches StepAction::ReportAndStop(e) && e.digits@ == d
                } else {
                    a matches StepAction::Report(e) && e.digits@ == d
                }
            },
        },
{
    if eof || (break_on_blank && str_eq(line, newline)) {
        return StepAction::Stop;
    }
    match hex2dec_line(line, skip_parse_errors) {
        Ok(s) => StepAction::Emit(s),
        Err(e) => {
            if stop_on_error {
                StepAction::ReportAndStop(e)
            } else {
                StepAction::Report(e)
            }
        },
    }
}

} // verus!
