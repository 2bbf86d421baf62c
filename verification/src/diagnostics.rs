//! The diagnostic emission interface.
//!
//! The lexer's caller reports problems through a capability the driver
//! implements; the core decides only when a diagnostic is triggered and what
//! context it carries, never how it is displayed.

use vstd::prelude::*;

use crate::source::Span;

verus! {

/// What a diagnostic is about: a source span, to be resolved through the
/// session's source map at display time, or a bare file path when no span
/// exists yet (a file that failed to load).
#[derive(Debug)]
pub enum Context {
    Source { span: Span },
    File { path: String },
}

/// A capability for reporting diagnostics. A trait rather than a function
/// pointer, so that the driver can accumulate diagnostic state (counts,
/// buffers) without dynamic dispatch on the hot lexing path.
pub trait EmitDiagnostic {
    fn error(&mut self, msg: String, ctx: Context);

    fn warn(&mut self, msg: String, ctx: Context);
}

/// A sink that counts the errors and warnings reported to it. The flag says
/// whether a driver displaying them should use color.
pub struct Diagnostics {
    pub errors: usize,
    pub warnings: usize,
    pub color: bool,
}

impl Diagnostics {
    pub fn new(color: bool) -> (d: Diagnostics)
        ensures
            d.errors == 0,
            d.warnings == 0,
            d.color == color,
    {
        Diagnostics { errors: 0, warnings: 0, color }
    }
}

impl EmitDiagnostic for Diagnostics {
    /// Count one error; the count stops at `usize::MAX` rather than wrap.
    fn error(&mut self, msg: String, ctx: Context)
        ensures
            final(self).errors == if old(self).errors < usize::MAX {
                old(self).errors + 1
            } else {
                old(self).errors as int
            },
            final(self).warnings == old(self).warnings,
            final(self).color == old(self).color,
    {
        if self.errors < usize::MAX {
            self.errors = self.errors + 1;
        }
    }

    /// Count one warning; the count stops at `usize::MAX` rather than wrap.
    fn warn(&mut self, msg: String, ctx: Context)
        ensures
            final(self).warnings == if old(self).warnings < usize::MAX {
                old(self).warnings + 1
            } else {
                old(self).warnings as int
            },
            final(self).errors == old(self).errors,
            final(self).color == old(self).color,
    {
        if self.warnings < usize::MAX {
            self.warnings = self.warnings + 1;
        }
    }
}

} // verus!
