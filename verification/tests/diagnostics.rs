//! Behavior of the diagnostic collector and its rendering.

use lox::{Diagnostic, Lox};

#[test]
fn fresh_collector_has_no_errors() {
    let lox = Lox::new();
    assert!(!lox.had_error);
    assert!(lox.diagnostics.is_empty());
}

#[test]
fn error_records_with_empty_location() {
    let mut lox = Lox::new();
    lox.error(7, "Unexpected character.".to_string());
    assert!(lox.had_error);
    assert_eq!(lox.diagnostics.len(), 1);
    assert_eq!(lox.diagnostics[0].line, 7);
    assert_eq!(lox.diagnostics[0].location, "");
    assert_eq!(lox.diagnostics[0].message, "Unexpected character.");
}

#[test]
fn report_keeps_location_and_order() {
    let mut lox = Lox::new();
    lox.report(1, "at end".to_string(), "first".to_string());
    lox.error(2, "second".to_string());
    assert_eq!(lox.diagnostics.len(), 2);
    assert_eq!(lox.diagnostics[0].location, "at end");
    assert_eq!(lox.diagnostics[0].message, "first");
    assert_eq!(lox.diagnostics[1].message, "second");
}

#[test]
fn rendering_shows_line_location_and_message() {
    let d = Diagnostic {
        line: 105,
        location: "at 'x'".to_string(),
        message: "Expect expression.".to_string(),
    };
    assert_eq!(d.render(), "[line 105] Error at 'x': Expect expression.");
    let bare = Diagnostic {
        line: 0,
        location: String::new(),
        message: "m".to_string(),
    };
    assert_eq!(bare.render(), "[line 0] Error : m");
}
