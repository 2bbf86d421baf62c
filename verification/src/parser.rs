//! The grammar-level parser stub: it walks the token stream looking for
//! lexical errors and reports each through the diagnostic sink. Building an
//! expression tree is beyond this front end.

use vstd::prelude::*;

use crate::diagnostics::{Context, EmitDiagnostic};
use crate::lexer::{Lexeme, Token, TokenInner};

verus! {

/// A token the parser reports as a lexical error: an unclosed string
/// literal, a failed integer literal, or an unrecognized run.
pub open spec fn is_lex_error(t: Lexeme) -> bool {
    ||| t matches Lexeme::StringLiteral { unclosed: true, .. }
    ||| t matches Lexeme::IntLiteral(Err(_))
    ||| t is Unrecognized
}

/// How many tokens of the stream are lexical errors.
pub open spec fn count_lex_errors(toks: Seq<(Token, bool)>) -> int
    decreases toks.len(),
{
    if toks.len() == 0 {
        0
    } else {
        count_lex_errors(toks.drop_last()) + if is_lex_error(toks.last().0.inner@) {
            1int
        } else {
            0int
        }
    }
}

/// How many entries of a spec-level token stream are lexical errors.
pub open spec fn count_lex_error_lexemes(toks: Seq<((Lexeme, int, int), bool)>) -> int
    decreases toks.len(),
{
    if toks.len() == 0 {
        0
    } else {
        count_lex_error_lexemes(toks.drop_last()) + if is_lex_error(toks.last().0.0) {
            1int
        } else {
            0int
        }
    }
}

/// A token stream that realizes a spec-level stream, entry by entry, has the
/// same number of lexical errors.
pub proof fn lemma_lex_error_counts_agree(
    ts: Seq<(Token, bool)>,
    es: Seq<((Lexeme, int, int), bool)>,
)
    requires
        ts.len() == es.len(),
        forall|k: int| 0 <= k < ts.len() ==> (#[trigger] ts[k].0.inner)@ == es[k].0.0,
    ensures
        count_lex_errors(ts) == count_lex_error_lexemes(es),
    decreases ts.len(),
{
    if ts.len() > 0 {
        lemma_lex_error_counts_agree(ts.drop_last(), es.drop_last());
    }
}

/// The parser. It carries no state of its own yet: all it does is inspect
/// tokens and report.
pub struct Parser {
}

impl Parser {
    pub fn new() -> (p: Parser) {
        Parser {  }
    }

    /// Walk the token stream and report one diagnostic for every lexically
    /// malformed token, with the token's span as context. Returns how many
    /// errors were reported.
    pub fn parse<E: EmitDiagnostic>(
        &mut self,
        diagnostics: &mut E,
        tokens: &Vec<(Token, bool)>,
    ) -> (n: usize)
        ensures
            n == count_lex_errors(tokens@),
    {
        let mut n: usize = 0;
        let mut idx: usize = 0;
        let len = tokens.len();
        while idx < len
            invariant
                0 <= idx <= len,
                len == tokens@.len(),
                n <= idx,
                n == count_lex_errors(tokens@.take(idx as int)),
            decreases len - idx,
        {
            proof {
                assert(tokens@.take(idx + 1).drop_last() =~= tokens@.take(idx as int));
                assert(tokens@.take(idx + 1).last() == tokens@[idx as int]);
            }
            let t = &tokens[idx].0;
            match &t.inner {
                TokenInner::StringLiteral { unclosed: true, .. } => {
                    diagnostics.error(
                        String::from_str("unclosed string literal"),
                        Context::Source { span: t.span },
                    );
                    n = n + 1;
                },
                TokenInner::IntLiteral(Err(e)) => {
                    diagnostics.error(e.message(), Context::Source { span: t.span });
                    n = n + 1;
                },
                TokenInner::Unrecognized => {
                    diagnostics.error(
                        String::from_str("unrecognized token"),
                        Context::Source { span: t.span },
                    );
                    n = n + 1;
                },
                _ => {
                },
            }
            idx = idx + 1;
        }
        proof {
            assert(tokens@.take(len as int) =~= tokens@);
        }
        n
    }
}

} // verus!