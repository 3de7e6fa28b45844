//! How the names of operators are read back.

use crate::ast::{op_name, BinOp};
use crate::lexer::{char_at, run_end, scan, symbol, Class};
use crate::parser::binop_of;
use crate::printer::prec_of;
use crate::token::{word_operator_of, Tok};
use vstd::prelude::*;

verus! {

/// The token that the name of an operator is.
pub open spec fn op_token(op: BinOp) -> Tok {
    match op {
        BinOp::Iff => Tok::Iff,
        BinOp::Implies => Tok::Implies,
        BinOp::Or => Tok::Or,
        BinOp::Xor => Tok::Xor,
        BinOp::And => Tok::And,
        BinOp::Eq => Tok::Eq,
        BinOp::Neq => Tok::Neq,
        BinOp::Lt => Tok::Lt,
        BinOp::Le => Tok::Le,
        BinOp::Gt => Tok::Gt,
        BinOp::Ge => Tok::Ge,
        BinOp::Plus => Tok::Plus,
        BinOp::Minus => Tok::Minus,
        BinOp::Mult => Tok::Mult,
        BinOp::Div => Tok::Div,
        BinOp::IDiv => Tok::IDiv,
        BinOp::Mod => Tok::Mod,
    }
}

pub proof fn op_texts()
    ensures
        "<=>"@ == seq!['<', '=', '>'],
        "=>"@ == seq!['=', '>'],
        "OR"@ == seq!['O', 'R'],
        "XOR"@ == seq!['X', 'O', 'R'],
        "AND"@ == seq!['A', 'N', 'D'],
        "="@ == seq!['='],
        "/="@ == seq!['/', '='],
        "<"@ == seq!['<'],
        "<="@ == seq!['<', '='],
        ">"@ == seq!['>'],
        ">="@ == seq!['>', '='],
        "+"@ == seq!['+'],
        "-"@ == seq!['-'],
        "*"@ == seq!['*'],
        "/"@ == seq!['/'],
        "DIV"@ == seq!['D', 'I', 'V'],
        "MOD"@ == seq!['M', 'O', 'D'],
        "_"@ == seq!['_'],
        "and"@ == seq!['a', 'n', 'd'],
        "or"@ == seq!['o', 'r'],
        "not"@ == seq!['n', 'o', 't'],
        "NOT"@ == seq!['N', 'O', 'T'],
        "xor"@ == seq!['x', 'o', 'r'],
        "div"@ == seq!['d', 'i', 'v'],
        "mod"@ == seq!['m', 'o', 'd'],
{
    reveal_strlit("<=>");
    reveal_strlit("=>");
    reveal_strlit("OR");
    reveal_strlit("XOR");
    reveal_strlit("AND");
    reveal_strlit("=");
    reveal_strlit("/=");
    reveal_strlit("<");
    reveal_strlit("<=");
    reveal_strlit(">");
    reveal_strlit(">=");
    reveal_strlit("+");
    reveal_strlit("-");
    reveal_strlit("*");
    reveal_strlit("/");
    reveal_strlit("DIV");
    reveal_strlit("MOD");
    reveal_strlit("_");
    reveal_strlit("and");
    reveal_strlit("or");
    reveal_strlit("not");
    reveal_strlit("NOT");
    reveal_strlit("xor");
    reveal_strlit("div");
    reveal_strlit("mod");
    assert("<=>"@ =~= seq!['<', '=', '>']);
    assert("=>"@ =~= seq!['=', '>']);
    assert("OR"@ =~= seq!['O', 'R']);
    assert("XOR"@ =~= seq!['X', 'O', 'R']);
    assert("AND"@ =~= seq!['A', 'N', 'D']);
    assert("="@ =~= seq!['=']);
    assert("/="@ =~= seq!['/', '=']);
    assert("<"@ =~= seq!['<']);
    assert("<="@ =~= seq!['<', '=']);
    assert(">"@ =~= seq!['>']);
    assert(">="@ =~= seq!['>', '=']);
    assert("+"@ =~= seq!['+']);
    assert("-"@ =~= seq!['-']);
    assert("*"@ =~= seq!['*']);
    assert("/"@ =~= seq!['/']);
    assert("DIV"@ =~= seq!['D', 'I', 'V']);
    assert("MOD"@ =~= seq!['M', 'O', 'D']);
    assert("_"@ =~= seq!['_']);
    assert("and"@ =~= seq!['a', 'n', 'd']);
    assert("or"@ =~= seq!['o', 'r']);
    assert("not"@ =~= seq!['n', 'o', 't']);
    assert("NOT"@ =~= seq!['N', 'O', 'T']);
    assert("xor"@ =~= seq!['x', 'o', 'r']);
    assert("div"@ =~= seq!['d', 'i', 'v']);
    assert("mod"@ =~= seq!['m', 'o', 'd']);
}

/// The name of an operator is one token, that of the operator, and the parser gives the operator the strength with
/// which the printer parenthesises it.
pub proof fn operator_read_back(op: BinOp)
    ensures
        scan(op_name(op), 0) == Ok::<(Tok, Seq<char>, int), Seq<char>>(
            (op_token(op), op_name(op), op_name(op).len() as int),
        ),
        binop_of(op_token(op)) matches Some((o, bp, _)) && o == op && bp == prec_of(op),
{
    op_texts();
    let s = op_name(op);
    reveal_with_fuel(run_end, 4);
    assert(s.subrange(0, s.len() as int) =~= s);
    if op == BinOp::Or || op == BinOp::Xor || op == BinOp::And || op == BinOp::IDiv || op == BinOp::Mod {
        assert(run_end(s, 0, Class::Ident) == s.len());
        assert(s.len() == 2 ==> op == BinOp::Or);
        assert(s[0] != 'n' && s[0] != 'N' && s[0] != 'a' && s[0] != 'o' && s[0] != '_');
        assert(word_operator_of(s) == Some(op_token(op))) by {
            assert(op == BinOp::Or ==> s.len() == 2);
            assert(op == BinOp::And ==> s[0] == 'A');
            assert(op == BinOp::Xor ==> s[0] == 'X');
            assert(op == BinOp::IDiv ==> s[0] == 'D');
            assert(op == BinOp::Mod ==> s[0] == 'M');
        }
    } else {
        assert(symbol(char_at(s, 0), char_at(s, 1), char_at(s, 2)) == Some((op_token(op), s.len())));
    }
}

} // verus!
