//! The error-reporting collaborator: an explicit diagnostic collector.
//!
//! The scanner and the parser record every lexical or syntactic error here;
//! recording marks the failure flag.  A driver prints the rendered
//! diagnostics and reads the flag after each scan/parse cycle, and resets it
//! between interactive iterations.

use vstd::prelude::*;
use vstd::string::*;

use crate::digits::{dec_digits, u32_to_string};

verus! {

/// Mathematical model of a [`Diagnostic`].
pub struct DiagV {
    pub line: nat,
    pub location: Seq<char>,
    pub message: Seq<char>,
}

/// One reported error: the 1-based source line it concerns, a location
/// phrase (empty for lexical errors), and a human-readable message.
#[derive(Debug, PartialEq)]
pub struct Diagnostic {
    pub line: u32,
    pub location: String,
    pub message: String,
}

impl View for Diagnostic {
    type V = DiagV;

    open spec fn view(&self) -> DiagV {
        DiagV { line: self.line as nat, location: self.location@, message: self.message@ }
    }
}

/// How a diagnostic renders on the diagnostic stream.
pub open spec fn render_diag(d: DiagV) -> Seq<char> {
    "[line "@ + dec_digits(d.line) + "] Error "@ + d.location + ": "@ + d.message
}

impl Diagnostic {
    /// Renders the diagnostic as `[line {line}] Error {location}: {message}`.
    pub fn render(&self) -> (r: String)
        ensures
            r@ == render_diag(self@),
    {
        let mut r = "[line ".to_owned();
        let n = u32_to_string(self.line);
        r.append(n.as_str());
        r.append("] Error ");
        r.append(self.location.as_str());
        r.append(": ");
        r.append(self.message.as_str());
        r
    }
}

/// Mathematical model of a [`Lox`] collector.
pub struct LoxV {
    pub had_error: bool,
    pub diags: Seq<DiagV>,
}

/// The diagnostic accumulator threaded through scan and parse calls.  The
/// failure flag is set by every recorded error and is never cleared by this
/// core; a driver resets it between interactive iterations by starting from
/// a fresh collector.
#[derive(Debug, PartialEq)]
pub struct Lox {
    pub had_error: bool,
    pub diagnostics: Vec<Diagnostic>,
}

impl View for Lox {
    type V = LoxV;

    open spec fn view(&self) -> LoxV {
        LoxV {
            had_error: self.had_error,
            diags: self.diagnostics@.map_values(|d: Diagnostic| d@),
        }
    }
}

impl Lox {
    /// A fresh collector: no errors yet.
    pub fn new() -> (r: Lox)
        ensures
            r@.had_error == false,
            r@.diags == Seq::<DiagV>::empty(),
    {
        let r = Lox { had_error: false, diagnostics: Vec::new() };
        proof {
            assert(r@.diags =~= Seq::<DiagV>::empty());
        }
        r
    }

    /// Records an error with no location phrase.
    pub fn error(&mut self, line: u32, message: String)
        ensures
            final(self)@.had_error == true,
            final(self)@.diags == old(self)@.diags.push(
                DiagV { line: line as nat, location: Seq::<char>::empty(), message: message@ },
            ),
    {
        self.report(line, String::new(), message);
    }

    /// Records an error at a described location and marks the failure flag.
    pub fn report(&mut self, line: u32, location: String, message: String)
        ensures
            final(self)@.had_error == true,
            final(self)@.diags == old(self)@.diags.push(
                DiagV { line: line as nat, location: location@, message: message@ },
            ),
    {
        let ghost before = self.diagnostics@;
        self.diagnostics.push(Diagnostic { line, location, message });
        self.had_error = true;
        proof {
            assert(self.diagnostics@.map_values(|d: Diagnostic| d@) =~= before.map_values(
                |d: Diagnostic| d@,
            ).push(self.diagnostics@.last()@));
        }
    }
}

} // verus!
