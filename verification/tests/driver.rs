use hex2dec::{drive_step, StepAction};

#[test]
fn eof_stops_without_emitting() {
    match drive_step(true, "", "\n", false, true, false) {
        StepAction::Stop => {},
        _ => panic!("end of input must stop the driver"),
    }
}

#[test]
fn default_line_is_rewritten_once() {
    match drive_step(false, "0x12\n", "\n", false, true, false) {
        StepAction::Emit(s) => assert_eq!(s, "  18\n"),
        _ => panic!("a clean line must be emitted"),
    }
}

#[test]
fn non_matching_line_passes_through() {
    match drive_step(false, "zzz\n", "\n", false, true, false) {
        StepAction::Emit(s) => assert_eq!(s, "zzz\n"),
        _ => panic!("a clean line must be emitted"),
    }
}

#[test]
fn overflow_with_stop_on_error_stops() {
    let line = format!("0x{}\n", "f".repeat(33));
    match drive_step(false, &line, "\n", false, true, false) {
        StepAction::ReportAndStop(e) => assert_eq!(e.digits, "f".repeat(33)),
        _ => panic!("an overflow must be reported and stop the driver"),
    }
}

#[test]
fn overflow_without_stop_on_error_continues() {
    let line = format!("0x{}\n", "f".repeat(33));
    match drive_step(false, &line, "\n", false, false, false) {
        StepAction::Report(e) => assert_eq!(e.digits, "f".repeat(33)),
        _ => panic!("an overflow must be reported without stopping"),
    }
}

#[test]
fn skip_parse_errors_masks_overflow() {
    let line = format!("0x{}\n", "f".repeat(33));
    match drive_step(false, &line, "\n", true, true, false) {
        StepAction::Emit(s) => assert_eq!(s, line),
        _ => panic!("with the skip policy the line must be emitted unchanged"),
    }
}

#[test]
fn blank_line_breaks_when_asked() {
    match drive_step(false, "\n", "\n", false, true, true) {
        StepAction::Stop => {},
        _ => panic!("a blank line must stop the driver when break_on_blank is set"),
    }
}

#[test]
fn blank_line_is_transformed_when_not_asked() {
    match drive_step(false, "\n", "\n", false, true, false) {
        StepAction::Emit(s) => assert_eq!(s, "\n"),
        _ => panic!("without break_on_blank a blank line is an ordinary line"),
    }
}

#[test]
fn other_newline_style_does_not_break() {
    // Only a line equal to the platform newline sequence breaks.
    match drive_step(false, "\r\n", "\n", false, true, true) {
        StepAction::Emit(s) => assert_eq!(s, "\r\n"),
        _ => panic!("a foreign blank line is an ordinary line"),
    }
}
