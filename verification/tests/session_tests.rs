use akhamoth::diagnostics::{Context, Diagnostics, EmitDiagnostic};
use akhamoth::lexer::tokenize;
use akhamoth::parser::Parser;
use akhamoth::source::SourceFile;
use akhamoth::CompileSession;

fn chars(s: &str) -> Vec<char> {
    s.chars().collect()
}

struct Collector {
    errors: Vec<(String, Context)>,
    warnings: Vec<(String, Context)>,
}

impl Collector {
    fn new() -> Collector {
        Collector { errors: Vec::new(), warnings: Vec::new() }
    }
}

impl EmitDiagnostic for Collector {
    fn error(&mut self, msg: String, ctx: Context) {
        self.errors.push((msg, ctx));
    }

    fn warn(&mut self, msg: String, ctx: Context) {
        self.warnings.push((msg, ctx));
    }
}

#[test]
fn counting_sink_counts() {
    let mut d = Diagnostics::new(false);
    assert_eq!(d.errors, 0);
    assert_eq!(d.warnings, 0);
    assert!(!d.color);
    d.error(String::from("m"), Context::File { path: String::from("p") });
    d.error(String::from("m"), Context::File { path: String::from("p") });
    d.warn(String::from("m"), Context::File { path: String::from("p") });
    assert_eq!(d.errors, 2);
    assert_eq!(d.warnings, 1);
}

#[test]
fn clean_input_compiles_without_diagnostics() {
    let mut session = CompileSession::new(Diagnostics::new(false));
    let r = session.compile(String::from("a.akh"), chars("foo(1, 0xFF)\n"));
    assert!(r.is_ok());
    assert_eq!(session.diagnostics.errors, 0);
}

#[test]
fn each_malformed_token_is_reported_once() {
    let mut session = CompileSession::new(Diagnostics::new(false));
    let r = session.compile(String::from("a.akh"), chars("0xg1 @@ \"open\n99999999999999999999"));
    assert!(r.is_ok());
    assert_eq!(session.diagnostics.errors, 4);
}

#[test]
fn parse_reports_messages_with_spans() {
    let f = SourceFile::new(String::from("a.akh"), chars("0xg1 @!"), 0).unwrap();
    let tokens = tokenize(&f);
    let mut sink = Collector::new();
    let mut parser = Parser::new();
    let n = parser.parse(&mut sink, &tokens);
    assert_eq!(n, 2);
    assert_eq!(sink.errors.len(), 2);
    assert_eq!(sink.errors[0].0, "invalid digit 'g' for base 16");
    assert_eq!(sink.errors[1].0, "unrecognized token");
    match &sink.errors[0].1 {
        Context::Source { span } => {
            assert_eq!(span.lo, 0);
            assert_eq!(span.len, 4);
        },
        Context::File { .. } => panic!("expected a span context"),
    }
    match &sink.errors[1].1 {
        Context::Source { span } => {
            assert_eq!(span.lo, 5);
            assert_eq!(span.len, 2);
        },
        Context::File { .. } => panic!("expected a span context"),
    }
    assert!(sink.warnings.is_empty());
}

#[test]
fn unclosed_string_is_reported() {
    let f = SourceFile::new(String::from("a.akh"), chars("\"abc"), 0).unwrap();
    let tokens = tokenize(&f);
    let mut sink = Collector::new();
    let mut parser = Parser::new();
    let n = parser.parse(&mut sink, &tokens);
    assert_eq!(n, 1);
    assert_eq!(sink.errors[0].0, "unclosed string literal");
}

#[test]
fn compile_sf_counts_lexical_errors() {
    let f = SourceFile::new(String::from("a.akh"), chars("x = 1; $ 0b9"), 0).unwrap();
    let mut session = CompileSession::new(Diagnostics::new(false));
    let n = session.compile_sf(&f).unwrap();
    assert_eq!(n, 2);
    assert_eq!(session.diagnostics.errors, 2);
}

#[test]
fn compiling_two_files_keeps_spans_resolvable() {
    let mut session = CompileSession::new(Collector::new());
    session.compile(String::from("a.akh"), chars("ok\n")).unwrap();
    session.compile(String::from("b.akh"), chars("!!\n")).unwrap();
    assert_eq!(session.diagnostics.errors.len(), 1);
    match &session.diagnostics.errors[0].1 {
        Context::Source { span } => {
            let text = session.source_map().span_to_string(*span);
            assert_eq!(text, "!!");
            let loc = session.source_map().span_to_location(*span);
            assert_eq!(session.source_map().files[loc.file].path, "b.akh");
            assert_eq!((loc.line, loc.col), (1, 1));
        },
        Context::File { .. } => panic!("expected a span context"),
    }
}
