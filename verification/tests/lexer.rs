use sal::lexer::tokenize;
use sal::token::Tok;

fn kinds(src: &str) -> Vec<Tok> {
    tokenize(src).unwrap().into_iter().map(|t| t.tok).collect()
}

#[test]
fn keywords_case_insensitive() {
    assert_eq!(
        kinds("begin Begin BEGIN"),
        vec![Tok::Begin, Tok::Begin, Tok::Begin, Tok::Eof]
    );
}

#[test]
fn word_ops_exact_case_only() {
    assert_eq!(
        kinds("and AND And"),
        vec![Tok::And, Tok::And, Tok::Identifier, Tok::Eof]
    );
}

#[test]
fn compound_tokens() {
    assert_eq!(
        kinds("[# #] (# #) [] || |- --> -> .. := <=> <= /="),
        vec![
            Tok::RecTypeS,
            Tok::RecTypeE,
            Tok::RecLitS,
            Tok::RecLitE,
            Tok::Async,
            Tok::Sync,
            Tok::Turnstile,
            Tok::LongArrow,
            Tok::Arrow,
            Tok::DotDot,
            Tok::Assign,
            Tok::Iff,
            Tok::Le,
            Tok::Neq,
            Tok::Eof
        ]
    );
}

#[test]
fn numbers() {
    let ts = tokenize("42 0x1F 0b101").unwrap();
    assert_eq!(ts[0].text, "42");
    assert_eq!(ts[1].text, "31");
    assert_eq!(ts[2].text, "5");
}

#[test]
fn identifiers() {
    assert_eq!(
        kinds("cons? _x _ x'"),
        vec![
            Tok::Identifier,
            Tok::Identifier,
            Tok::Unbounded,
            Tok::Identifier,
            Tok::Quote,
            Tok::Eof
        ]
    );
}

#[test]
fn comments() {
    assert_eq!(
        kinds("x % comment\ny"),
        vec![Tok::Identifier, Tok::Identifier, Tok::Eof]
    );
    // comment at EOF without trailing newline
    assert_eq!(kinds("x % comment"), vec![Tok::Identifier, Tok::Eof]);
}

#[test]
fn lexer_places() {
    let ts = tokenize("a\n  b").unwrap();
    assert_eq!((ts[0].span.start.line, ts[0].span.start.col), (1, 0));
    assert_eq!((ts[1].span.start.line, ts[1].span.start.col), (2, 2));
    assert_eq!((ts[1].span.end.line, ts[1].span.end.col), (2, 3));
    // a place counts bytes
    let ts = tokenize("\"\u{e9}\" x").unwrap();
    assert_eq!(ts[0].text, "\u{e9}");
    assert_eq!(ts[1].span.start.col, 5);
}

#[test]
fn lexer_strings() {
    let ts = tokenize("\"a\\\"b\" c").unwrap();
    assert_eq!(ts[0].tok, Tok::Str);
    assert_eq!(ts[0].text, "a\\\"b");
    assert_eq!(ts[1].text, "c");
}

#[test]
fn lexer_errors() {
    let e = tokenize("x #").unwrap_err();
    assert_eq!(e.msg, "invalid token `#'");
    assert_eq!((e.pos.line, e.pos.col), (1, 2));
    assert_eq!(tokenize("\"abc").unwrap_err().msg, "unterminated string");
    assert_eq!(tokenize("?").unwrap_err().msg, "invalid character `?'");
    assert_eq!(tokenize("\u{e9}").unwrap_err().msg, "invalid character `\u{c3}'");
}

#[test]
fn operator_identifiers() {
    let ts = tokenize("$+- a").unwrap();
    assert_eq!(ts[0].tok, Tok::Identifier);
    assert_eq!(ts[0].text, "$+-");
    assert_eq!(ts[1].text, "a");
}
