//! Lexical front end of a small compiler: a source map that assigns every
//! loaded file a disjoint range of a global 32-bit byte address space, a
//! greedy longest-match lexer producing located tokens, and the diagnostic
//! plumbing that ties a reported problem to a source position.
//!
//! A driver threads file contents through a [`CompileSession`], which loads
//! them into its [`source::SourceMap`], tokenizes each file, and reports
//! lexical problems through the driver's [`diagnostics::EmitDiagnostic`]
//! sink.

pub mod diagnostics;
pub mod lexer;
pub mod parser;
pub mod source;

use vstd::prelude::*;

use crate::diagnostics::{Context, EmitDiagnostic};
use crate::lexer::{filter_ws_tokens, spec_tokens, tokenize};
use crate::parser::{count_lex_error_lexemes, lemma_lex_error_counts_agree, Parser};
use crate::source::{bytes_of, LoadError, SourceFile, SourceMap};

verus! {

/// A failure of one compilation: so far only a failure to load the input.
#[derive(Debug)]
pub enum CompileError {
    Load(LoadError),
}

/// One compilation session: the source map of everything loaded so far,
/// and the driver's diagnostic sink.
pub struct CompileSession<E: EmitDiagnostic> {
    source_map: SourceMap,
    pub diagnostics: E,
}

impl<E: EmitDiagnostic> CompileSession<E> {
    /// The session's source map keeps its invariant.
    pub closed spec fn wf(&self) -> bool {
        self.source_map.wf()
    }

    /// The session's source map.
    pub closed spec fn spec_map(&self) -> SourceMap {
        self.source_map
    }

    /// The session's diagnostic sink.
    pub closed spec fn spec_diagnostics(&self) -> E {
        self.diagnostics
    }

    /// A fresh session around the driver's diagnostic sink.
    pub fn new(diagnostics: E) -> (s: Self)
        ensures
            s.wf(),
            s.spec_map().files@.len() == 0,
            s.spec_diagnostics() == diagnostics,
    {
        Self { diagnostics, source_map: SourceMap { files: Vec::new() } }
    }

    /// The session's source map, for resolving spans of its diagnostics.
    pub fn source_map(&self) -> (m: &SourceMap)
        ensures
            m == self.spec_map(),
    {
        &self.source_map
    }

    /// Compile one input: load its text into the source map and check its
    /// tokens, reporting each lexical error through the sink. When the text
    /// does not fit the 32-bit address space, report that through the sink,
    /// leave the map unchanged, and fail.
    pub fn compile(&mut self, path: String, src: Vec<char>) -> (r: Result<(), CompileError>)
        requires
            old(self).wf(),
        ensures
            final(self).wf(),
            match r {
                Ok(_) => {
                    &&& old(self).spec_map().spec_next_start() + bytes_of(src@) <= u32::MAX
                    &&& final(self).spec_map().files@.len() == old(self).spec_map().files@.len()
                        + 1
                    &&& forall|k: int|
                        0 <= k < old(self).spec_map().files@.len()
                            ==> final(self).spec_map().files@[k] == old(self).spec_map().files@[k]
                    &&& final(self).spec_map().files@.last().path@ == path@
                    &&& final(self).spec_map().files@.last().src@ == src@
                    &&& final(self).spec_map().files@.last().start_pos as int
                        == old(self).spec_map().spec_next_start()
                },
                Err(e) => {
                    &&& e matches CompileError::Load(le) && le is OffsetOverflowError
                    &&& old(self).spec_map().spec_next_start() + bytes_of(src@) > u32::MAX
                    &&& final(self).spec_map() == old(self).spec_map()
                },
            },
    {
        let loaded = self.source_map.load_file(path.clone(), src);
        match loaded {
            Ok(idx) => {
                proof {
                    assert(self.source_map.files@[idx as int].wf());
                }
                let tokens = tokenize(&self.source_map.files[idx]);
                let mut parser = Parser::new();
                let _reported = parser.parse(&mut self.diagnostics, &tokens);
                Ok(())
            },
            Err(e) => {
                let msg = e.message();
                self.diagnostics.error(msg, Context::File { path });
                Err(CompileError::Load(e))
            },
        }
    }

    /// Check one already-loaded file: tokenize it and report each lexical
    /// error through the sink. Returns how many errors were reported.
    pub fn compile_sf(&mut self, sf: &SourceFile) -> (r: Result<usize, CompileError>)
        requires
            old(self).wf(),
            sf.wf(),
        ensures
            final(self).wf(),
            final(self).spec_map() == old(self).spec_map(),
            r matches Ok(n) && n == count_lex_error_lexemes(
                filter_ws_tokens(spec_tokens(sf.src@)),
            ),
    {
        let tokens = tokenize(sf);
        let mut parser = Parser::new();
        let n = parser.parse(&mut self.diagnostics, &tokens);
        proof {
            lemma_lex_error_counts_agree(tokens@, filter_ws_tokens(spec_tokens(sf.src@)));
        }
        Ok(n)
    }
}

} // verus!
