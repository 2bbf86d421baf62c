use akhamoth::lexer::{tokenize, DelimKind, Operator, ParseIntError, Token, TokenInner};
use akhamoth::source::{SourceFile, SourceMap};

fn chars(s: &str) -> Vec<char> {
    s.chars().collect()
}

fn file(text: &str) -> SourceFile {
    SourceFile::new(String::from("test.akh"), chars(text), 0).unwrap()
}

fn lex(text: &str) -> Vec<(Token, bool)> {
    tokenize(&file(text))
}

#[test]
fn call_with_decimal_and_hex_literals() {
    let toks = lex("foo(1, 0xFF)");
    assert_eq!(toks.len(), 6);
    match &toks[0].0.inner {
        TokenInner::Identifier(s) => assert_eq!(s, "foo"),
        other => panic!("expected identifier, got {other:?}"),
    }
    assert!(matches!(toks[1].0.inner, TokenInner::OpenDelim(DelimKind::Paren)));
    assert!(matches!(toks[2].0.inner, TokenInner::IntLiteral(Ok(1))));
    assert!(matches!(toks[3].0.inner, TokenInner::Comma));
    assert!(matches!(toks[4].0.inner, TokenInner::IntLiteral(Ok(255))));
    assert!(matches!(toks[5].0.inner, TokenInner::CloseDelim(DelimKind::Paren)));
}

#[test]
fn invalid_digit_consumes_whole_run() {
    let toks = lex("0xg1");
    assert_eq!(toks.len(), 1);
    assert!(matches!(
        toks[0].0.inner,
        TokenInner::IntLiteral(Err(ParseIntError::InvalidDigit('g', 16)))
    ));
    assert_eq!(toks[0].0.span.lo, 0);
    assert_eq!(toks[0].0.span.len, 4);
}

#[test]
fn decimal_overflow_is_reported() {
    let toks = lex("99999999999999999999");
    assert_eq!(toks.len(), 1);
    assert!(matches!(
        toks[0].0.inner,
        TokenInner::IntLiteral(Err(ParseIntError::Overflow))
    ));
}

#[test]
fn i64_max_fits_and_one_more_does_not() {
    let toks = lex("9223372036854775807");
    assert!(matches!(
        toks[0].0.inner,
        TokenInner::IntLiteral(Ok(9223372036854775807))
    ));
    let toks = lex("9223372036854775808");
    assert!(matches!(
        toks[0].0.inner,
        TokenInner::IntLiteral(Err(ParseIntError::Overflow))
    ));
}

#[test]
fn unterminated_string_at_eof() {
    let toks = lex("\"abc");
    assert_eq!(toks.len(), 1);
    match &toks[0].0.inner {
        TokenInner::StringLiteral { contents, unclosed } => {
            assert_eq!(contents, "abc");
            assert!(*unclosed);
        },
        other => panic!("expected string literal, got {other:?}"),
    }
    assert_eq!(toks[0].0.span.len, 4);
}

#[test]
fn unterminated_string_recovers_on_next_line() {
    let toks = lex("\"abc\ndef");
    assert_eq!(toks.len(), 2);
    match &toks[0].0.inner {
        TokenInner::StringLiteral { contents, unclosed } => {
            assert_eq!(contents, "abc");
            assert!(*unclosed);
        },
        other => panic!("expected string literal, got {other:?}"),
    }
    match &toks[1].0.inner {
        TokenInner::Identifier(s) => assert_eq!(s, "def"),
        other => panic!("expected identifier, got {other:?}"),
    }
    assert!(toks[1].1, "identifier after the newline is preceded by whitespace");
}

#[test]
fn whitespace_flag_marks_following_token() {
    let toks = lex("a  ->b");
    assert_eq!(toks.len(), 3);
    match &toks[0].0.inner {
        TokenInner::Identifier(s) => assert_eq!(s, "a"),
        other => panic!("expected identifier, got {other:?}"),
    }
    assert!(!toks[0].1);
    assert!(matches!(toks[1].0.inner, TokenInner::Operator(Operator::Arrow)));
    assert!(toks[1].1);
    match &toks[2].0.inner {
        TokenInner::Identifier(s) => assert_eq!(s, "b"),
        other => panic!("expected identifier, got {other:?}"),
    }
    assert!(!toks[2].1);
}

#[test]
fn empty_input_yields_no_tokens() {
    assert!(lex("").is_empty());
    assert!(lex("   \n\t ").is_empty());
}

#[test]
fn string_with_escapes_keeps_raw_text() {
    let toks = lex("\"a\\\"b\\\\c\"");
    assert_eq!(toks.len(), 1);
    match &toks[0].0.inner {
        TokenInner::StringLiteral { contents, unclosed } => {
            assert_eq!(contents, "a\\\"b\\\\c");
            assert!(!unclosed);
        },
        other => panic!("expected string literal, got {other:?}"),
    }
}

#[test]
fn line_comment_excludes_leading_slashes() {
    let toks = lex("// hi\nx");
    assert_eq!(toks.len(), 2);
    match &toks[0].0.inner {
        TokenInner::Comment(s) => assert_eq!(s, " hi"),
        other => panic!("expected comment, got {other:?}"),
    }
    match &toks[1].0.inner {
        TokenInner::Identifier(s) => assert_eq!(s, "x"),
        other => panic!("expected identifier, got {other:?}"),
    }
}

#[test]
fn operators_and_punctuation() {
    let toks = lex("| , : ; . % * / + - = => -> ( [ { ) ] }");
    let expect = [
        |t: &TokenInner| matches!(t, TokenInner::Pipe),
        |t: &TokenInner| matches!(t, TokenInner::Comma),
        |t: &TokenInner| matches!(t, TokenInner::Colon),
        |t: &TokenInner| matches!(t, TokenInner::Semicolon),
        |t: &TokenInner| matches!(t, TokenInner::Operator(Operator::Dot)),
        |t: &TokenInner| matches!(t, TokenInner::Operator(Operator::Percent)),
        |t: &TokenInner| matches!(t, TokenInner::Operator(Operator::Mul)),
        |t: &TokenInner| matches!(t, TokenInner::Operator(Operator::Div)),
        |t: &TokenInner| matches!(t, TokenInner::Operator(Operator::Plus)),
        |t: &TokenInner| matches!(t, TokenInner::Operator(Operator::Minus)),
        |t: &TokenInner| matches!(t, TokenInner::Operator(Operator::Equals)),
        |t: &TokenInner| matches!(t, TokenInner::Operator(Operator::FatArrow)),
        |t: &TokenInner| matches!(t, TokenInner::Operator(Operator::Arrow)),
        |t: &TokenInner| matches!(t, TokenInner::OpenDelim(DelimKind::Paren)),
        |t: &TokenInner| matches!(t, TokenInner::OpenDelim(DelimKind::Bracket)),
        |t: &TokenInner| matches!(t, TokenInner::OpenDelim(DelimKind::Brace)),
        |t: &TokenInner| matches!(t, TokenInner::CloseDelim(DelimKind::Paren)),
        |t: &TokenInner| matches!(t, TokenInner::CloseDelim(DelimKind::Bracket)),
        |t: &TokenInner| matches!(t, TokenInner::CloseDelim(DelimKind::Brace)),
    ];
    assert_eq!(toks.len(), expect.len());
    for (k, check) in expect.iter().enumerate() {
        assert!(check(&toks[k].0.inner), "token {k} mismatched: {:?}", toks[k].0.inner);
    }
}

#[test]
fn radix_prefixes_decode() {
    assert!(matches!(lex("0b1010")[0].0.inner, TokenInner::IntLiteral(Ok(10))));
    assert!(matches!(lex("0o17")[0].0.inner, TokenInner::IntLiteral(Ok(15))));
    assert!(matches!(lex("0x_F")[0].0.inner, TokenInner::IntLiteral(Ok(15))));
    assert!(matches!(lex("1_000")[0].0.inner, TokenInner::IntLiteral(Ok(1000))));
    assert!(matches!(lex("0")[0].0.inner, TokenInner::IntLiteral(Ok(0))));
}

#[test]
fn prefix_without_digits_is_empty() {
    assert!(matches!(
        lex("0x")[0].0.inner,
        TokenInner::IntLiteral(Err(ParseIntError::Empty))
    ));
    assert!(matches!(
        lex("0b__")[0].0.inner,
        TokenInner::IntLiteral(Err(ParseIntError::Empty))
    ));
}

#[test]
fn invalid_digit_for_binary_base() {
    let toks = lex("0b12");
    assert_eq!(toks.len(), 1);
    assert!(matches!(
        toks[0].0.inner,
        TokenInner::IntLiteral(Err(ParseIntError::InvalidDigit('2', 2)))
    ));
}

#[test]
fn unrecognized_runs_are_batched() {
    let toks = lex("@#$");
    assert_eq!(toks.len(), 1);
    assert!(matches!(toks[0].0.inner, TokenInner::Unrecognized));
    assert_eq!(toks[0].0.span.len, 3);
}

#[test]
fn angle_brackets_belong_to_unrecognized_runs() {
    let toks = lex("@<>$");
    assert_eq!(toks.len(), 1);
    assert!(matches!(toks[0].0.inner, TokenInner::Unrecognized));
    assert_eq!(toks[0].0.span.len, 4);
    let toks = lex("a<b");
    assert_eq!(toks.len(), 3);
    assert!(matches!(toks[1].0.inner, TokenInner::Unrecognized));
    assert_eq!(toks[1].0.span.len, 1);
}

#[test]
fn recognized_punctuation_stops_unrecognized_runs() {
    let toks = lex("@,#");
    assert_eq!(toks.len(), 3);
    assert!(matches!(toks[0].0.inner, TokenInner::Unrecognized));
    assert_eq!(toks[0].0.span.len, 1);
    assert!(matches!(toks[1].0.inner, TokenInner::Comma));
    assert!(matches!(toks[2].0.inner, TokenInner::Unrecognized));
    assert_eq!(toks[2].0.span.len, 1);
}

#[test]
fn spans_cover_the_input_in_order() {
    let src = "foo(1, 0xFF) // c\n\"s\" @!";
    let toks = lex(src);
    let mut covered: Vec<(u32, u32)> = toks.iter().map(|t| (t.0.span.lo, t.0.span.len)).collect();
    covered.sort();
    let mut prev_end = 0;
    for (lo, len) in covered {
        assert!(lo >= prev_end, "token spans must not overlap");
        prev_end = lo + len;
    }
    assert!(prev_end as usize <= src.len());
}

#[test]
fn span_text_reconstructs_tokens() {
    let src = "foo( 0xFF)";
    let mut sm = SourceMap::default();
    let idx = sm.load_file(String::from("a.akh"), chars(src)).unwrap();
    let toks = tokenize(&sm.files[idx]);
    let texts: Vec<String> = toks.iter().map(|t| sm.span_to_string(t.0.span)).collect();
    assert_eq!(texts, vec!["foo", "(", "0xFF", ")"]);
}

#[test]
fn int_error_messages() {
    assert_eq!(ParseIntError::Empty.message(), "empty int literal");
    assert_eq!(ParseIntError::Overflow.message(), "int literal out of range");
    assert_eq!(
        ParseIntError::InvalidDigit('g', 16).message(),
        "invalid digit 'g' for base 16"
    );
    assert_eq!(
        ParseIntError::InvalidDigit('2', 2).message(),
        "invalid digit '2' for base 2"
    );
}

#[test]
fn tokenizing_arbitrary_text_terminates_with_bounded_output() {
    let nasty = "\u{0}\u{1}\u{7f} \t\r\n\u{e9}\u{4e2d}\u{1f600} \"\\ 0b_ 0xZZ \\ @@@ <><> ,,;; //";
    let toks = lex(nasty);
    assert!(toks.len() <= nasty.chars().count());
    let empty_ws = lex(" \u{a0}\u{2003}\n");
    assert!(empty_ws.is_empty());
}

#[test]
fn span_texts_tile_whitespace_free_input() {
    let src = "foo(1,0xFF)->bar//c";
    let mut sm = SourceMap::default();
    let idx = sm.load_file(String::from("a.akh"), chars(src)).unwrap();
    let toks = tokenize(&sm.files[idx]);
    let mut rebuilt = String::new();
    for (t, preceded) in &toks {
        assert!(!preceded, "no whitespace anywhere in this input");
        rebuilt.push_str(&sm.span_to_string(t.span));
    }
    assert_eq!(rebuilt, src);
}

#[test]
fn numeric_round_trip_on_concrete_literals() {
    // decoded value, re-rendered in the literal's base and case-folded,
    // equals the input digits without underscores or leading zeros
    let cases: [(&str, u32); 5] = [
        ("0x_1F", 16),
        ("0b0101", 2),
        ("0o0017", 8),
        ("00100", 10),
        ("0xdeadBEEF", 16),
    ];
    for (text, base) in cases {
        let toks = lex(text);
        assert_eq!(toks.len(), 1, "{text} must lex as one literal");
        let v = match &toks[0].0.inner {
            TokenInner::IntLiteral(Ok(v)) => *v,
            other => panic!("{text} should decode, got {other:?}"),
        };
        let rendered = match base {
            2 => format!("{v:b}"),
            8 => format!("{v:o}"),
            16 => format!("{v:x}"),
            _ => format!("{v}"),
        };
        let digits = if base == 10 { text } else { &text[2..] };
        let canonical: String = {
            let kept: String = digits.chars().filter(|c| *c != '_').collect();
            let lower = kept.to_lowercase();
            let stripped = lower.trim_start_matches('0');
            if stripped.is_empty() { String::from("0") } else { String::from(stripped) }
        };
        assert_eq!(rendered, canonical, "round trip of {text}");
    }
}

#[test]
fn decimal_rendering() {
    assert_eq!(akhamoth::lexer::u32_to_decimal(0), "0");
    assert_eq!(akhamoth::lexer::u32_to_decimal(16), "16");
    assert_eq!(akhamoth::lexer::u32_to_decimal(4294967295), "4294967295");
}
