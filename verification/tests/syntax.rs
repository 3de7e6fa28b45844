use sal::args::parse_args;
use sal::ast::{BinOp, ExprKind};
use sal::error::SalError;
use sal::lexer::tokenize;
use sal::parser::{parse_context, parse_expr, parse_module};
use sal::printer::{print_context, print_expr, print_module};
use sal::span::{Pos, Span};
use sal::token::Tok;

fn again(src: &str) -> String {
    print_expr(&parse_expr(src).unwrap())
}

#[test]
fn expressions_print_back() {
    for src in [
        "x + 1 * y",
        "a AND b OR NOT c",
        "f(x, y)[3].2.fld",
        "IF a THEN b ELSE c ENDIF",
        "LAMBDA (x: [0..3]): x + 1",
        "FORALL (i: T): a[i] = 0",
        "r WITH .x := 3",
        "bakery{5, 15}!mutex",
    ] {
        let once = again(src);
        assert_eq!(again(&once), once);
    }
    assert_eq!(again("bakery{5,15}!mutex"), "bakery{5, 15}!mutex");
}

#[test]
fn contexts_print_back() {
    let src = "c: CONTEXT = BEGIN
        T: TYPE = [0..3];
        m: MODULE = BEGIN
            LOCAL x: T
            INITIALIZATION x = 0
            TRANSITION [ x < 3 --> x' = x + 1 [] ELSE --> x' = 0 ]
        END;
        inv: THEOREM m |- G(x <= 3);
    END";
    let once = print_context(&parse_context(src).unwrap());
    let twice = print_context(&parse_context(&once).unwrap());
    assert_eq!(once, twice);
}

#[test]
fn modules_print_back() {
    let once = print_module(&parse_module("a || (b [] c)").unwrap());
    assert_eq!(print_module(&parse_module(&once).unwrap()), once);
}

#[test]
fn parse_errors_have_places() {
    let e = parse_expr("x +").unwrap_err();
    assert_eq!((e.pos.line, e.pos.col), (1, 3));
    assert!(e.text().starts_with("line(1), column(3): "));
    assert!(parse_expr("x y").is_err());
}

#[test]
fn errors_print() {
    let span = Span::new(Pos::new(3, 7), Pos::new(3, 9));
    assert_eq!(
        SalError::semantic("c", span, "Bad.").text(),
        "Error: [Context: c, line(3), column(7)]: Bad."
    );
    assert_eq!(SalError::global("Bad.").text(), "Error: Bad.");
}

#[test]
fn options() {
    let args: Vec<String> = ["ctx", "--assertion=a", "--depth", "4", "-i"]
        .iter()
        .map(|s| s.to_string())
        .collect();
    let valued = vec!["depth".to_string()];
    let a = parse_args(&args, &valued).unwrap();
    assert_eq!(a.positional, vec!["ctx"]);
    assert_eq!(a.opt("assertion"), Some("a"));
    assert_eq!(a.opt("depth"), Some("4"));
    assert!(a.flag("i"));
    assert!(!a.flag("j"));
    assert_eq!(
        parse_args(&vec!["--nope".to_string()], &valued).err().unwrap(),
        "Illegal option `--nope'. Try `--help' for more information."
    );
}

#[test]
fn simple_expressions_are_read_back() {
    for (src, printed) in [
        ("a+b*c", "a + b * c"),
        ("(a+b)*c", "(a + b) * c"),
        ("a => b => c", "a => b => c"),
        ("(a => b) => c", "(a => b) => c"),
        ("not a and -x*3 <= y'", "NOT a AND -x * 3 <= y'"),
        ("((a)) <=> b xor c", "((a)) <=> b XOR c"),
        ("f(x,(y,1))[i+1].fld", "f(x, (y, 1))[i + 1].fld"),
        ("{1,x'}", "{1, x'}"),
        (
            "if a then b elsif c then if d then 1 else 2 endif else (3) endif",
            "IF a THEN b ELSIF c THEN IF d THEN 1 ELSE 2 ENDIF ELSE (3) ENDIF",
        ),
    ] {
        assert_eq!(again(src), printed);
        assert_eq!(again(printed), printed);
    }
}

#[test]
fn missing_parentheses_are_printed() {
    let mut e = parse_expr("(a + b) * c").unwrap();
    if let ExprKind::Binary(_, l, _) = &mut e.kind {
        l.parens = 0;
    }
    assert_eq!(print_expr(&e), "(a + b) * c");
    let mut e = parse_expr("(-x)[1]").unwrap();
    if let ExprKind::ArraySelect(l, _) = &mut e.kind {
        l.parens = 0;
    }
    assert_eq!(print_expr(&e), "(-x)[1]");
}

#[test]
fn names_of_operators_are_read_back() {
    for (op, tok) in [
        (BinOp::Iff, Tok::Iff),
        (BinOp::Implies, Tok::Implies),
        (BinOp::Or, Tok::Or),
        (BinOp::Xor, Tok::Xor),
        (BinOp::And, Tok::And),
        (BinOp::Neq, Tok::Neq),
        (BinOp::Le, Tok::Le),
        (BinOp::Minus, Tok::Minus),
        (BinOp::IDiv, Tok::IDiv),
        (BinOp::Mod, Tok::Mod),
    ] {
        let ts = tokenize(op.name()).unwrap();
        assert_eq!(ts.len(), 2);
        assert_eq!(ts[0].tok, tok);
        let e = parse_expr(&format!("a {} b", op.name())).unwrap();
        assert!(matches!(e.kind, ExprKind::Binary(o, _, _) if o == op));
    }
}
