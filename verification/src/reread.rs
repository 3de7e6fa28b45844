//! How printed expressions are read back.

use crate::ast::{op_name, BinOp, ExprKindV, ExprV, UnOp};
use crate::lexer::{
    char_at, digit, ident_cont, ident_start, number, run_end, scan, skipped, symbol, tokens, upper, word_kind,
    Class,
};
use crate::parser::{
    ahead, binop_of, expr_at, expr_of, grammar, grammar_rules, p_conditional_tail, p_expr_bp, p_expr_plus,
    p_expr_postfix, p_expr_primary, p_expr_tail, p_ident, p_if_expr, p_name, p_name_expr, p_next_expr,
    p_numeral_expr, p_paren_expr, p_postfix_tail, p_set_list_expr, span_from, start_at, tok_at, whole, Grammar,
};
use crate::printer::{
    binding, expr_text, needs, prec_of, repeated, shown, shown_rules, w_expr, w_expr_kind, w_exprs, w_name, w_prec,
    w_tail,
};
use crate::span::Pos;
use crate::spelling::{op_texts, op_token, operator_read_back};
use crate::token::{keyword_of, word_operator_of, Tok, TokenV};
use vstd::prelude::*;

verus! {

/// The text is a word that is no keyword.
pub open spec fn is_word(s: Seq<char>) -> bool {
    &&& s.len() > 0
    &&& ident_start(s[0])
    &&& forall|k: int| 0 <= k < s.len() ==> ident_cont(#[trigger] s[k])
    &&& word_kind(s) == Tok::Identifier
}

/// The text is made of decimal digits.
pub open spec fn is_figures(s: Seq<char>) -> bool {
    s.len() > 0 && forall|k: int| 0 <= k < s.len() ==> digit(#[trigger] s[k])
}

/// The expression is a further branch of a conditional.
pub open spec fn is_branch(e: ExprV) -> bool {
    e.parens == 0 && e.kind matches ExprKindV::Conditional { cond: _, then_: _, els: _, is_elsif: true }
}

/// The expression is made of names, next values, numerals, operators, selections of elements and fields, applications,
/// sets, tuples and conditionals.
pub open spec fn is_simple(e: ExprV) -> bool
    decreases e, 0nat, 0nat,
{
    match e.kind {
        ExprKindV::Name(x) => x.ctx is None && is_word(x.id.name),
        ExprKindV::Next(x) => is_word(x.name),
        ExprKindV::Numeral(t) => is_figures(t),
        ExprKindV::Binary(_, a, b) => is_simple(*a) && is_simple(*b),
        ExprKindV::Unary(_, a) => is_simple(*a),
        ExprKindV::ArraySelect(a, b) => is_simple(*a) && is_simple(*b),
        ExprKindV::RecordSelect(a, x) => is_simple(*a) && is_word(x.name),
        ExprKindV::App(a, v) => is_simple(*a) && v.len() > 0 && are_simple(v, 0),
        ExprKindV::SetList(v) => v.len() > 0 && are_simple(v, 0),
        ExprKindV::TupleLit(v) => v.len() > 1 && are_simple(v, 0),
        ExprKindV::Conditional { cond, then_, els, is_elsif } => !is_elsif && is_simple(*cond) && is_simple(*then_)
            && is_simple_rest(*els),
        _ => false,
    }
}

/// The branches of a conditional behind the first are simple.
pub open spec fn is_simple_rest(e: ExprV) -> bool
    decreases e, 1nat, 0nat,
{
    if is_branch(e) {
        match e.kind {
            ExprKindV::Conditional { cond, then_, els, is_elsif } => is_simple(*cond) && is_simple(*then_)
                && is_simple_rest(*els),
            _ => false,
        }
    } else {
        is_simple(e)
    }
}

/// The expressions from number `i` on are simple.
pub open spec fn are_simple(v: Seq<ExprV>, i: int) -> bool
    decreases v, 0nat, v.len() - i,
{
    if 0 <= i < v.len() {
        is_simple(v[i]) && are_simple(v, i + 1)
    } else {
        true
    }
}

/// The expression with a pair of parentheses around it, where it needs them as an operand.
pub open spec fn enclosed(e: ExprV, needed: bool) -> ExprV {
    if needed {
        ExprV { parens: 1, ..e }
    } else {
        e
    }
}

/// How strongly a unary operator binds.
pub open spec fn unary_prec(o: UnOp) -> u8 {
    if o == UnOp::Not {
        50
    } else {
        85
    }
}

/// The expression with parentheses around every operand that needs them.
pub open spec fn tidied(e: ExprV) -> ExprV
    decreases e, 0nat,
{
    match e.kind {
        ExprKindV::Binary(o, a, b) => ExprV {
            kind: ExprKindV::Binary(
                o,
                Box::new(enclosed(tidied(*a), needs(*a, prec_of(o), false))),
                Box::new(enclosed(tidied(*b), needs(*b, prec_of(o), true))),
            ),
            ..e
        },
        ExprKindV::Unary(o, a) => ExprV {
            kind: ExprKindV::Unary(o, Box::new(enclosed(tidied(*a), needs(*a, unary_prec(o), true)))),
            ..e
        },
        ExprKindV::ArraySelect(a, b) => ExprV {
            kind: ExprKindV::ArraySelect(Box::new(enclosed(tidied(*a), needs(*a, 100, false))), Box::new(tidied(*b))),
            ..e
        },
        ExprKindV::RecordSelect(a, x) => ExprV {
            kind: ExprKindV::RecordSelect(Box::new(enclosed(tidied(*a), needs(*a, 100, false))), x),
            ..e
        },
        ExprKindV::App(a, v) => ExprV {
            kind: ExprKindV::App(Box::new(enclosed(tidied(*a), needs(*a, 100, false))), tidied_all(v)),
            ..e
        },
        ExprKindV::SetList(v) => ExprV { kind: ExprKindV::SetList(tidied_all(v)), ..e },
        ExprKindV::TupleLit(v) => ExprV { kind: ExprKindV::TupleLit(tidied_all(v)), ..e },
        ExprKindV::Conditional { cond, then_, els, is_elsif } => ExprV {
            kind: ExprKindV::Conditional {
                cond: Box::new(tidied(*cond)),
                then_: Box::new(tidied(*then_)),
                els: Box::new(tidied(*els)),
                is_elsif,
            },
            ..e
        },
        _ => e,
    }
}

/// The expressions with parentheses around every operand that needs them.
pub open spec fn tidied_all(v: Seq<ExprV>) -> Seq<ExprV>
    decreases v, 0nat,
{
    Seq::new(
        v.len(),
        |i: int|
            if 0 <= i < v.len() {
                tidied(v[i])
            } else {
                arbitrary()
            },
    )
}

/// The expression is simple, and every operand that needs parentheses has them.
spec fn is_tidy(e: ExprV) -> bool
    decreases e, 0nat, 0nat,
{
    match e.kind {
        ExprKindV::Name(x) => x.ctx is None && is_word(x.id.name),
        ExprKindV::Next(x) => is_word(x.name),
        ExprKindV::Numeral(t) => is_figures(t),
        ExprKindV::Binary(o, a, b) => is_tidy(*a) && is_tidy(*b) && !needs(*a, prec_of(o), false) && !needs(
            *b,
            prec_of(o),
            true,
        ),
        ExprKindV::Unary(o, a) => is_tidy(*a) && !needs(*a, unary_prec(o), true),
        ExprKindV::ArraySelect(a, b) => is_tidy(*a) && is_tidy(*b) && !needs(*a, 100, false),
        ExprKindV::RecordSelect(a, x) => is_tidy(*a) && is_word(x.name) && !needs(*a, 100, false),
        ExprKindV::App(a, v) => is_tidy(*a) && v.len() > 0 && are_tidy(v, 0) && !needs(*a, 100, false),
        ExprKindV::SetList(v) => v.len() > 0 && are_tidy(v, 0),
        ExprKindV::TupleLit(v) => v.len() > 1 && are_tidy(v, 0),
        ExprKindV::Conditional { cond, then_, els, is_elsif } => !is_elsif && is_tidy(*cond) && is_tidy(*then_)
            && is_tidy_rest(*els),
        _ => false,
    }
}

spec fn is_tidy_rest(e: ExprV) -> bool
    decreases e, 1nat, 0nat,
{
    if is_branch(e) {
        match e.kind {
            ExprKindV::Conditional { cond, then_, els, is_elsif } => is_tidy(*cond) && is_tidy(*then_) && is_tidy_rest(
                *els,
            ),
            _ => false,
        }
    } else {
        is_tidy(e)
    }
}

spec fn are_tidy(v: Seq<ExprV>, i: int) -> bool
    decreases v, 0nat, v.len() - i,
{
    if 0 <= i < v.len() {
        is_tidy(v[i]) && are_tidy(v, i + 1)
    } else {
        true
    }
}

proof fn tidied_tidy(e: ExprV)
    requires
        is_simple(e),
    ensures
        is_tidy(tidied(e)),
        is_tidy(enclosed(tidied(e), true)),
        tidied(e).parens == e.parens,
        binding(tidied(e).kind) == binding(e.kind),
    decreases e, 0nat, 0nat,
{
    reveal_with_fuel(is_tidy, 2);
    match e.kind {
        ExprKindV::Binary(o, a, b) => {
            tidied_tidy(*a);
            tidied_tidy(*b);
        },
        ExprKindV::Unary(o, a) => {
            tidied_tidy(*a);
        },
        ExprKindV::ArraySelect(a, b) => {
            tidied_tidy(*a);
            tidied_tidy(*b);
        },
        ExprKindV::RecordSelect(a, x) => {
            tidied_tidy(*a);
        },
        ExprKindV::App(a, v) => {
            tidied_tidy(*a);
            tidied_tidies(v, 0);
        },
        ExprKindV::SetList(v) => {
            tidied_tidies(v, 0);
        },
        ExprKindV::TupleLit(v) => {
            tidied_tidies(v, 0);
        },
        ExprKindV::Conditional { cond, then_, els, is_elsif } => {
            tidied_tidy(*cond);
            tidied_tidy(*then_);
            tidied_rest(*els);
        },
        _ => {},
    }
}

proof fn tidied_rest(e: ExprV)
    requires
        is_simple_rest(e),
    ensures
        is_tidy_rest(tidied(e)),
        is_branch(tidied(e)) == is_branch(e),
        tidied(e).parens == e.parens,
    decreases e, 1nat, 0nat,
{
    if is_branch(e) {
        match e.kind {
            ExprKindV::Conditional { cond, then_, els, is_elsif } => {
                tidied_tidy(*cond);
                tidied_tidy(*then_);
                tidied_rest(*els);
            },
            _ => {},
        }
    } else {
        tidied_tidy(e);
    }
}

proof fn tidied_tidies(v: Seq<ExprV>, i: int)
    requires
        0 <= i <= v.len(),
        are_simple(v, i),
    ensures
        are_tidy(tidied_all(v), i),
    decreases v, 0nat, v.len() - i,
{
    if i < v.len() {
        tidied_tidy(v[i]);
        tidied_tidies(v, i + 1);
    }
}

spec fn larger(a: nat, b: nat) -> nat {
    if a > b {
        a
    } else {
        b
    }
}

/// How deep the expression is nested.
pub closed spec fn depth(e: ExprV) -> nat
    decreases e, 0nat, 0nat,
{
    match e.kind {
        ExprKindV::Binary(_, a, b) => 1 + larger(depth(*a), depth(*b)),
        ExprKindV::Unary(_, a) => 1 + depth(*a),
        ExprKindV::ArraySelect(a, b) => 1 + larger(depth(*a), depth(*b)),
        ExprKindV::RecordSelect(a, x) => 1 + depth(*a),
        ExprKindV::App(a, v) => 1 + larger(depth(*a), depths(v, 0)),
        ExprKindV::SetList(v) => 1 + depths(v, 0),
        ExprKindV::TupleLit(v) => 1 + depths(v, 0),
        ExprKindV::Conditional { cond, then_, els, is_elsif } => 2 + larger(
            depth(*els),
            larger(depth(*cond), depth(*then_)),
        ),
        _ => 0,
    }
}

spec fn depths(v: Seq<ExprV>, i: int) -> nat
    decreases v, 0nat, v.len() - i,
{
    if 0 <= i < v.len() {
        larger(depth(v[i]), depths(v, i + 1))
    } else {
        0
    }
}

/// The expressions are the same up to their places.
pub open spec fn alike(f: ExprV, e: ExprV) -> bool
    decreases e, 1nat, 0nat,
{
    f.parens == e.parens && same_kind(f.kind, e)
}

/// What stands in the parentheses of an expression is the same up to its places.
pub open spec fn same_kind(k: ExprKindV, e: ExprV) -> bool
    decreases e, 0nat, 0nat,
{
    match (k, e.kind) {
        (ExprKindV::Name(x), ExprKindV::Name(y)) => x.ctx is None && y.ctx is None && x.id.name == y.id.name,
        (ExprKindV::Next(x), ExprKindV::Next(y)) => x.name == y.name,
        (ExprKindV::Numeral(x), ExprKindV::Numeral(y)) => x == y,
        (ExprKindV::Binary(o, a, b), ExprKindV::Binary(p, c, d)) => o == p && alike(*a, *c) && alike(*b, *d),
        (ExprKindV::Unary(o, a), ExprKindV::Unary(p, c)) => o == p && alike(*a, *c),
        (ExprKindV::ArraySelect(a, b), ExprKindV::ArraySelect(c, d)) => alike(*a, *c) && alike(*b, *d),
        (ExprKindV::RecordSelect(a, x), ExprKindV::RecordSelect(c, y)) => alike(*a, *c) && x.name == y.name,
        (ExprKindV::App(a, v), ExprKindV::App(c, w)) => alike(*a, *c) && v.len() == w.len() && all_alike(v, w, 0),
        (ExprKindV::SetList(v), ExprKindV::SetList(w)) => v.len() == w.len() && all_alike(v, w, 0),
        (ExprKindV::TupleLit(v), ExprKindV::TupleLit(w)) => v.len() == w.len() && all_alike(v, w, 0),
        (
            ExprKindV::Conditional { cond: a, then_: b, els: c, is_elsif: x },
            ExprKindV::Conditional { cond: d, then_: f, els: g, is_elsif: y },
        ) => x == y && alike(*a, *d) && alike(*b, *f) && alike(*c, *g),
        _ => false,
    }
}

/// The expressions from number `i` on are the same up to their places.
pub open spec fn all_alike(v: Seq<ExprV>, w: Seq<ExprV>, i: int) -> bool
    decreases w, 0nat, w.len() - i,
{
    if 0 <= i < w.len() {
        alike(v[i], w[i]) && all_alike(v, w, i + 1)
    } else {
        true
    }
}

/// The text of an expression in `n` pairs of parentheses.
spec fn tx(e: ExprV, n: nat) -> Seq<char>
    decreases e, 0nat, n,
{
    if n > 0 {
        seq!['('] + tx(e, (n - 1) as nat) + seq![')']
    } else {
        match e.kind {
            ExprKindV::Name(x) => x.id.name,
            ExprKindV::Next(x) => x.name + seq!['\''],
            ExprKindV::Numeral(t) => t,
            ExprKindV::Binary(o, a, b) => tx(*a, a.parens as nat) + (seq![' '] + op_name(o) + seq![' ']) + tx(
                *b,
                b.parens as nat,
            ),
            ExprKindV::Unary(o, a) => (if o == UnOp::Not {
                seq!['N', 'O', 'T', ' ']
            } else {
                seq!['-']
            }) + tx(*a, a.parens as nat),
            ExprKindV::ArraySelect(a, b) => tx(*a, a.parens as nat) + (seq!['['] + tx(*b, b.parens as nat) + seq![']']),
            ExprKindV::RecordSelect(a, x) => tx(*a, a.parens as nat) + (seq!['.'] + x.name),
            ExprKindV::App(a, v) => tx(*a, a.parens as nat) + (seq!['('] + tx_list(v, 0) + seq![')']),
            ExprKindV::SetList(v) => seq!['{'] + tx_list(v, 0) + seq!['}'],
            ExprKindV::TupleLit(v) => seq!['('] + tx_list(v, 0) + seq![')'],
            ExprKindV::Conditional { cond, then_, els, is_elsif } => seq!['I', 'F', ' '] + (tx(
                *cond,
                cond.parens as nat,
            ) + (seq![' ', 'T', 'H', 'E', 'N', ' '] + (tx(*then_, then_.parens as nat) + (tx_rest(*els) + seq![
                ' ',
                'E',
                'N',
                'D',
                'I',
                'F',
            ])))),
            _ => Seq::empty(),
        }
    }
}

/// The text of the branches of a conditional behind the first.
spec fn tx_rest(e: ExprV) -> Seq<char>
    decreases e, 1nat, 0nat,
{
    if is_branch(e) {
        match e.kind {
            ExprKindV::Conditional { cond, then_, els, is_elsif } => seq![' ', 'E', 'L', 'S', 'I', 'F', ' '] + (tx(
                *cond,
                cond.parens as nat,
            ) + (seq![' ', 'T', 'H', 'E', 'N', ' '] + (tx(*then_, then_.parens as nat) + tx_rest(*els)))),
            _ => Seq::empty(),
        }
    } else {
        seq![' ', 'E', 'L', 'S', 'E', ' '] + tx(e, e.parens as nat)
    }
}

/// The text of the expressions from number `i` on, each but the last with a comma and a blank behind it.
spec fn tx_list(v: Seq<ExprV>, i: int) -> Seq<char>
    decreases v, 0nat, v.len() - i,
{
    if 0 <= i < v.len() {
        if i + 1 < v.len() {
            tx(v[i], v[i].parens as nat) + (seq![',', ' '] + tx_list(v, i + 1))
        } else {
            tx(v[i], v[i].parens as nat)
        }
    } else {
        Seq::empty()
    }
}

/// The tokens of an expression in `n` pairs of parentheses.
spec fn words(e: ExprV, n: nat) -> Seq<(Tok, Seq<char>)>
    decreases e, 0nat, n,
{
    if n > 0 {
        seq![(Tok::LParen, seq!['('])] + words(e, (n - 1) as nat) + seq![(Tok::RParen, seq![')'])]
    } else {
        match e.kind {
            ExprKindV::Name(x) => seq![(Tok::Identifier, x.id.name)],
            ExprKindV::Next(x) => seq![(Tok::Identifier, x.name), (Tok::Quote, seq!['\''])],
            ExprKindV::Numeral(t) => seq![(Tok::Numeral, t)],
            ExprKindV::Binary(o, a, b) => words(*a, a.parens as nat) + seq![(op_token(o), op_name(o))] + words(
                *b,
                b.parens as nat,
            ),
            ExprKindV::Unary(o, a) => seq![
                if o == UnOp::Not {
                    (Tok::Not, seq!['N', 'O', 'T'])
                } else {
                    (Tok::Minus, seq!['-'])
                },
            ] + words(*a, a.parens as nat),
            ExprKindV::ArraySelect(a, b) => words(*a, a.parens as nat) + (seq![(Tok::LBrack, seq!['['])] + words(
                *b,
                b.parens as nat,
            ) + seq![(Tok::RBrack, seq![']'])]),
            ExprKindV::RecordSelect(a, x) => words(*a, a.parens as nat) + (seq![(Tok::Dot, seq!['.'])] + seq![
                (Tok::Identifier, x.name),
            ]),
            ExprKindV::App(a, v) => words(*a, a.parens as nat) + (seq![(Tok::LParen, seq!['('])] + word_list(v, 0)
                + seq![(Tok::RParen, seq![')'])]),
            ExprKindV::SetList(v) => seq![(Tok::LBrace, seq!['{'])] + word_list(v, 0) + seq![
                (Tok::RBrace, seq!['}']),
            ],
            ExprKindV::TupleLit(v) => seq![(Tok::LParen, seq!['('])] + word_list(v, 0) + seq![
                (Tok::RParen, seq![')']),
            ],
            ExprKindV::Conditional { cond, then_, els, is_elsif } => seq![(Tok::If, seq!['I', 'F'])] + (words(
                *cond,
                cond.parens as nat,
            ) + (seq![(Tok::Then, seq!['T', 'H', 'E', 'N'])] + (words(*then_, then_.parens as nat) + (word_rest(*els)
                + seq![(Tok::Endif, seq!['E', 'N', 'D', 'I', 'F'])])))),
            _ => Seq::empty(),
        }
    }
}

/// The tokens of the branches of a conditional behind the first.
spec fn word_rest(e: ExprV) -> Seq<(Tok, Seq<char>)>
    decreases e, 1nat, 0nat,
{
    if is_branch(e) {
        match e.kind {
            ExprKindV::Conditional { cond, then_, els, is_elsif } => seq![
                (Tok::Elsif, seq!['E', 'L', 'S', 'I', 'F']),
            ] + (words(*cond, cond.parens as nat) + (seq![(Tok::Then, seq!['T', 'H', 'E', 'N'])] + (words(
                *then_,
                then_.parens as nat,
            ) + word_rest(*els)))),
            _ => Seq::empty(),
        }
    } else {
        seq![(Tok::Else, seq!['E', 'L', 'S', 'E'])] + words(e, e.parens as nat)
    }
}

/// The tokens of the expressions from number `i` on.
spec fn word_list(v: Seq<ExprV>, i: int) -> Seq<(Tok, Seq<char>)>
    decreases v, 0nat, v.len() - i,
{
    if 0 <= i < v.len() {
        if i + 1 < v.len() {
            words(v[i], v[i].parens as nat) + (seq![(Tok::Comma, seq![','])] + word_list(v, i + 1))
        } else {
            words(v[i], v[i].parens as nat)
        }
    } else {
        Seq::empty()
    }
}

/// How strongly an operation holds together.
spec fn strength(e: ExprV, n: nat) -> int {
    if n > 0 {
        999
    } else {
        match binding(e.kind) {
            Some((bp, _)) => bp as int,
            None => 999,
        }
    }
}

/// An operator behind an operation that binds less strongly than this does not belong to its last operand.
spec fn last(e: ExprV, n: nat) -> int
    decreases e,
{
    if n > 0 {
        1000
    } else {
        match e.kind {
            ExprKindV::Binary(o, _, b) => {
                let own = if o == BinOp::Implies {
                    prec_of(o) as int
                } else {
                    prec_of(o) + 1
                };
                let l = last(*b, b.parens as nat);
                if own < l {
                    own
                } else {
                    l
                }
            },
            ExprKindV::Unary(o, a) => {
                let own: int = if o == UnOp::Not {
                    51
                } else {
                    85
                };
                let l = last(*a, a.parens as nat);
                if own < l {
                    own
                } else {
                    l
                }
            },
            _ => 1000,
        }
    }
}

spec fn is_right(e: ExprV, n: nat) -> bool {
    n == 0 && e.kind matches ExprKindV::Binary(BinOp::Implies, _, _)
}

proof fn last_bound(e: ExprV, n: nat)
    requires
        is_tidy(e),
    ensures
        last(e, n) >= strength(e, n) + if is_right(e, n) {
            0int
        } else {
            1int
        } || (e.kind matches ExprKindV::Unary(UnOp::Minus, _) && n == 0 && last(e, n) >= 85),
    decreases e,
{
    reveal_with_fuel(last, 2);
    reveal_with_fuel(is_tidy, 2);
    if n == 0 {
        match e.kind {
            ExprKindV::Binary(o, _, b) => {
                last_bound(*b, b.parens as nat);
            },
            ExprKindV::Unary(o, a) => {
                last_bound(*a, a.parens as nat);
            },
            _ => {},
        }
    }
}

/// The tokens stand at a place.
spec fn stand_at(ts: Seq<TokenV>, i: int, v: Seq<(Tok, Seq<char>)>) -> bool {
    forall|k: int| 0 <= k < v.len() ==> ts[i + k].tok == (#[trigger] v[k]).0 && ts[i + k].text == v[k].1
}

proof fn stand_parts(ts: Seq<TokenV>, i: int, v: Seq<(Tok, Seq<char>)>, w: Seq<(Tok, Seq<char>)>)
    requires
        stand_at(ts, i, v + w),
    ensures
        stand_at(ts, i, v),
        stand_at(ts, i + v.len(), w),
{
    let z = v + w;
    assert forall|k: int| 0 <= k < v.len() implies ts[i + k].tok == (#[trigger] v[k]).0 && ts[i + k].text == v[k].1 by {
        assert(z[k] == v[k]);
    }
    assert forall|k: int| 0 <= k < w.len() implies ts[i + v.len() + k].tok == (#[trigger] w[k]).0 && ts[i + v.len()
        + k].text == w[k].1 by {
        assert(z[v.len() + k] == w[k]);
    }
}

/// A token that ends an expression whatever it is.
spec fn closing(t: Tok) -> bool {
    t == Tok::RParen || t == Tok::RBrack || t == Tok::RBrace || t == Tok::Comma || t == Tok::Then || t == Tok::Elsif || t
        == Tok::Else || t == Tok::Endif || t == Tok::Eof
}

/// What may stand behind an operand of a selection or an application.
spec fn opens(ts: Seq<TokenV>, j: int) -> bool {
    ||| tok_at(ts, j) == Tok::LBrack
    ||| tok_at(ts, j) == Tok::LParen
    ||| (tok_at(ts, j) == Tok::Dot && tok_at(ts, j + 1) == Tok::Identifier)
}

/// What may stand behind an operation.
spec fn ends_at(ts: Seq<TokenV>, j: int, e: ExprV, n: nat) -> bool {
    &&& 0 <= j < ts.len()
    &&& {
        ||| closing(tok_at(ts, j))
        ||| (binop_of(tok_at(ts, j)) matches Some((_, bp, _)) && bp < last(e, n))
    }
}

proof fn tail_stops(ts: Seq<TokenV>, j: int, start: Pos, m: u8, f: ExprV, g: Grammar)
    requires
        tok_at(ts, j) != Tok::With,
        binop_of(tok_at(ts, j)) matches Some((_, bp, _)) ==> bp < m,
    ensures
        p_expr_tail(ts, j, start, m, f, g) == Ok::<(ExprV, int), crate::lexer::Fail>((f, j)),
{
    reveal_with_fuel(p_expr_tail, 1);
}

proof fn words_some(e: ExprV, n: nat)
    requires
        is_tidy(e),
    ensures
        words(e, n).len() > 0,
    decreases e, n,
{
    if n == 0 {
        match e.kind {
            ExprKindV::ArraySelect(a, b) => {
                words_some(*a, a.parens as nat);
            },
            _ => {},
        }
    }
}

/// The expression is no operation, or in parentheses.
spec fn is_whole(e: ExprV, n: nat) -> bool {
    n > 0 || binding(e.kind) is None
}

/// A primary expression.
proof fn primary_first(ts: Seq<TokenV>, i: int, f: ExprV, j: int)
    requires
        0 <= i < j < ts.len(),
        p_expr_primary(ts, i, grammar(ts, i)) == Ok::<(ExprV, int), crate::lexer::Fail>((f, j)),
    ensures
        p_expr_postfix(ts, i, grammar(ts, i)) == p_postfix_tail(ts, j, start_at(ts, i), f, grammar(ts, i)),
{
    reveal(p_expr_postfix);
}

/// The parser goes on with an expression in another one.
proof fn goes_on(ts: Seq<TokenV>, lo: int, i: int, m: u8, e: ExprV) -> (f: ExprV)
    requires
        is_tidy(e),
        0 <= lo < i,
        stand_at(ts, i, words(e, e.parens as nat)),
        i + words(e, e.parens as nat).len() < ts.len(),
        ends_at(ts, i + words(e, e.parens as nat).len(), e, e.parens as nat),
        binop_of(tok_at(ts, i + words(e, e.parens as nat).len())) matches Some((_, bp, _)) ==> bp < m,
        strength(e, e.parens as nat) >= m,
    ensures
        alike(f, e),
        ahead((grammar(ts, lo).expr)(i, m), i, ts.len() as int) == Ok::<(ExprV, int), crate::lexer::Fail>(
            (f, i + words(e, e.parens as nat).len()),
        ),
    decreases e, 1nat, 0nat,
{
    let j = i + words(e, e.parens as nat).len();
    words_some(e, e.parens as nat);
    let f = parses(ts, i, m, e, e.parens as nat);
    tail_stops(ts, j, start_at(ts, i), m, f, grammar(ts, i));
    grammar_rules(ts, lo, i);
    f
}

/// The parser makes a list of its tokens.
proof fn lists(ts: Seq<TokenV>, lo: int, i: int, acc: Seq<ExprV>, v: Seq<ExprV>, k: int) -> (fs: Seq<ExprV>)
    requires
        are_tidy(v, k),
        0 <= lo < i,
        0 <= k < v.len(),
        acc.len() == k,
        stand_at(ts, i, word_list(v, k)),
        i + word_list(v, k).len() < ts.len(),
        closing(tok_at(ts, i + word_list(v, k).len())),
        tok_at(ts, i + word_list(v, k).len()) != Tok::Comma,
    ensures
        fs.len() == v.len(),
        fs.take(k) == acc,
        all_alike(fs, v, k),
        word_list(v, k).len() > 0,
        p_expr_plus(ts, i, acc, grammar(ts, lo)) == Ok::<(Seq<ExprV>, int), crate::lexer::Fail>(
            (fs, i + word_list(v, k).len()),
        ),
    decreases v, 0nat, v.len() - k,
{
    let wa = words(v[k], v[k].parens as nat);
    reveal_with_fuel(are_tidy, 2);
    words_some(v[k], v[k].parens as nat);
    let j = i + wa.len();
    if k + 1 < v.len() {
        let c = seq![(Tok::Comma, seq![','])];
        let rest = word_list(v, k + 1);
        stand_parts(ts, i, wa, c + rest);
        stand_parts(ts, j, c, rest);
        assert(c[0] == (Tok::Comma, seq![',']));
        let f = goes_on(ts, lo, i, 0, v[k]);
        let fs = lists(ts, lo, j + 1, acc.push(f), v, k + 1);
        reveal_with_fuel(p_expr_plus, 2);
        reveal_with_fuel(all_alike, 2);
        assert(fs.take(k + 1)[k] == f);
        assert(fs[k] == f);
        assert(fs.take(k) =~= acc) by {
            assert(fs.take(k + 1).take(k) =~= fs.take(k));
            assert(acc.push(f).take(k) =~= acc);
        }
        fs
    } else {
        let f = goes_on(ts, lo, i, 0, v[k]);
        reveal_with_fuel(p_expr_plus, 2);
        reveal_with_fuel(all_alike, 2);
        let fs = acc.push(f);
        assert(fs.take(k) =~= acc);
        fs
    }
}

/// The parser makes the branches of a conditional behind the first of their tokens.
proof fn branches(ts: Seq<TokenV>, lo: int, i: int, start: Pos, e: ExprV) -> (f: ExprV)
    requires
        is_tidy_rest(e),
        0 <= lo < i,
        stand_at(ts, i, word_rest(e)),
        i + word_rest(e).len() + 1 < ts.len(),
        tok_at(ts, i + word_rest(e).len()) == Tok::Endif,
    ensures
        alike(f, e),
        p_conditional_tail(ts, i, start, grammar(ts, lo)) == Ok::<(ExprV, int), crate::lexer::Fail>(
            (f, i + word_rest(e).len() + 1),
        ),
    decreases e, 2nat, 0nat,
{
    if is_branch(e) {
        match e.kind {
            ExprKindV::Conditional { cond, then_, els, is_elsif } => {
                let w0 = seq![(Tok::Elsif, seq!['E', 'L', 'S', 'I', 'F'])];
                let wc = words(*cond, cond.parens as nat);
                let w1 = seq![(Tok::Then, seq!['T', 'H', 'E', 'N'])];
                let wt = words(*then_, then_.parens as nat);
                let wr = word_rest(*els);
                stand_parts(ts, i, w0, wc + (w1 + (wt + wr)));
                stand_parts(ts, i + 1, wc, w1 + (wt + wr));
                let j1 = i + 1 + wc.len();
                stand_parts(ts, j1, w1, wt + wr);
                stand_parts(ts, j1 + 1, wt, wr);
                let j2 = j1 + 1 + wt.len();
                assert(w0[0].0 == Tok::Elsif);
                assert(w1[0].0 == Tok::Then);
                rest_starts(*els);
                assert(wr[0] == wr[0]);
                let fc = goes_on(ts, lo, i + 1, 0, *cond);
                let ft = goes_on(ts, lo, j1 + 1, 0, *then_);
                let fr = branches(ts, lo, j2, start, *els);
                reveal_with_fuel(p_conditional_tail, 2);
                p_conditional_tail(ts, i, start, grammar(ts, lo))->Ok_0.0
            },
            _ => e,
        }
    } else {
        let w0 = seq![(Tok::Else, seq!['E', 'L', 'S', 'E'])];
        let we = words(e, e.parens as nat);
        stand_parts(ts, i, w0, we);
        assert(w0[0].0 == Tok::Else);
        let f = goes_on(ts, lo, i + 1, 0, e);
        reveal_with_fuel(p_conditional_tail, 1);
        f
    }
}

proof fn rest_starts(e: ExprV)
    requires
        is_tidy_rest(e),
    ensures
        word_rest(e).len() > 0,
        word_rest(e)[0].0 == Tok::Elsif || word_rest(e)[0].0 == Tok::Else,
{
}

/// An expression in parentheses.
proof fn posts_enclosed(ts: Seq<TokenV>, i: int, e: ExprV, n: nat) -> (f: ExprV)
    requires
        is_tidy(e),
        is_whole(e, n),
        0 <= i,
        n <= u32::MAX,
        stand_at(ts, i, words(e, n)),
        i + words(e, n).len() < ts.len(),
        ends_at(ts, i + words(e, n).len(), e, n) || opens(ts, i + words(e, n).len()),
        n > 0,
    ensures
        f.parens == n,
        same_kind(f.kind, e),
        p_expr_postfix(ts, i, grammar(ts, i)) == p_postfix_tail(
            ts,
            i + words(e, n).len(),
            start_at(ts, i),
            f,
            grammar(ts, i),
        ),
        tok_at(ts, i) != Tok::Not,
        tok_at(ts, i) != Tok::Minus,
    decreases e, 0nat, 3 * n,
{
    let v = words(e, n);
    let j = i + v.len();
    let g = grammar(ts, i);
    let start = start_at(ts, i);
    words_some(e, n);
    assert(v[0] == v[0]);
    let inner = words(e, (n - 1) as nat);
    let l = seq![(Tok::LParen, seq!['('])];
    let r = seq![(Tok::RParen, seq![')'])];
    stand_parts(ts, i, l + inner, r);
    stand_parts(ts, i, l, inner);
    assert(l[0] == (Tok::LParen, seq!['(']));
    assert(r[0] == (Tok::RParen, seq![')']));
    let j1 = i + 1 + inner.len();
    words_some(e, (n - 1) as nat);
    let f1 = parses(ts, i + 1, 0, e, (n - 1) as nat);
    tail_stops(ts, j1, start_at(ts, i + 1), 0, f1, grammar(ts, i + 1));
    grammar_rules(ts, i, i + 1);
    reveal(p_expr_primary);
    reveal(p_paren_expr);
    let f = p_expr_primary(ts, i, g)->Ok_0.0;
    primary_first(ts, i, f, j);
    f
}

/// The selection of an element.
proof fn posts_element(ts: Seq<TokenV>, i: int, e: ExprV, n: nat) -> (f: ExprV)
    requires
        is_tidy(e),
        is_whole(e, n),
        0 <= i,
        n <= u32::MAX,
        stand_at(ts, i, words(e, n)),
        i + words(e, n).len() < ts.len(),
        ends_at(ts, i + words(e, n).len(), e, n) || opens(ts, i + words(e, n).len()),
        n == 0,
        e.kind is ArraySelect,
    ensures
        f.parens == n,
        same_kind(f.kind, e),
        p_expr_postfix(ts, i, grammar(ts, i)) == p_postfix_tail(
            ts,
            i + words(e, n).len(),
            start_at(ts, i),
            f,
            grammar(ts, i),
        ),
        tok_at(ts, i) != Tok::Not,
        tok_at(ts, i) != Tok::Minus,
    decreases e, 0nat, 0nat,
{
    let v = words(e, n);
    let j = i + v.len();
    let g = grammar(ts, i);
    let start = start_at(ts, i);
    words_some(e, n);
    assert(v[0] == v[0]);
    match e.kind {
        ExprKindV::ArraySelect(a, b) => {
            let wa = words(*a, a.parens as nat);
            let wb = words(*b, b.parens as nat);
            let l = seq![(Tok::LBrack, seq!['['])];
            let r = seq![(Tok::RBrack, seq![']'])];
            stand_parts(ts, i, wa, l + wb + r);
            let ja = i + wa.len();
            stand_parts(ts, ja, l + wb, r);
            stand_parts(ts, ja, l, wb);
            assert(l[0].0 == Tok::LBrack);
            assert(r[0].0 == Tok::RBrack);
            words_some(*a, a.parens as nat);
            let fa = posts(ts, i, *a, a.parens as nat);
            let fb = goes_on(ts, i, ja + 1, 0, *b);
            let f = expr_at(ExprKindV::ArraySelect(Box::new(fa), Box::new(fb)), span_from(ts, j, start));
            reveal_with_fuel(p_postfix_tail, 2);
            assert(p_postfix_tail(ts, ja, start, fa, g) == p_postfix_tail(ts, j, start, f, g));
            f
        },
        _ => e,
    }
}

/// The selection of a field.
proof fn posts_field(ts: Seq<TokenV>, i: int, e: ExprV, n: nat) -> (f: ExprV)
    requires
        is_tidy(e),
        is_whole(e, n),
        0 <= i,
        n <= u32::MAX,
        stand_at(ts, i, words(e, n)),
        i + words(e, n).len() < ts.len(),
        ends_at(ts, i + words(e, n).len(), e, n) || opens(ts, i + words(e, n).len()),
        n == 0,
        e.kind is RecordSelect,
    ensures
        f.parens == n,
        same_kind(f.kind, e),
        p_expr_postfix(ts, i, grammar(ts, i)) == p_postfix_tail(
            ts,
            i + words(e, n).len(),
            start_at(ts, i),
            f,
            grammar(ts, i),
        ),
        tok_at(ts, i) != Tok::Not,
        tok_at(ts, i) != Tok::Minus,
    decreases e, 0nat, 0nat,
{
    let v = words(e, n);
    let j = i + v.len();
    let g = grammar(ts, i);
    let start = start_at(ts, i);
    words_some(e, n);
    assert(v[0] == v[0]);
    match e.kind {
        ExprKindV::RecordSelect(a, x) => {
            let wa = words(*a, a.parens as nat);
            let d = seq![(Tok::Dot, seq!['.'])];
            let y = seq![(Tok::Identifier, x.name)];
            stand_parts(ts, i, wa, d + y);
            let ja = i + wa.len();
            stand_parts(ts, ja, d, y);
            assert(d[0].0 == Tok::Dot);
            assert(y[0] == (Tok::Identifier, x.name));
            words_some(*a, a.parens as nat);
            let fa = posts(ts, i, *a, a.parens as nat);
            reveal(p_ident);
            let id = p_ident(ts, ja + 1, g)->Ok_0.0;
            let f = expr_at(ExprKindV::RecordSelect(Box::new(fa), id), span_from(ts, j, start));
            reveal_with_fuel(p_postfix_tail, 2);
            assert(p_postfix_tail(ts, ja, start, fa, g) == p_postfix_tail(ts, j, start, f, g));
            f
        },
        _ => e,
    }
}

/// An application.
proof fn posts_application(ts: Seq<TokenV>, i: int, e: ExprV, n: nat) -> (f: ExprV)
    requires
        is_tidy(e),
        is_whole(e, n),
        0 <= i,
        n <= u32::MAX,
        stand_at(ts, i, words(e, n)),
        i + words(e, n).len() < ts.len(),
        ends_at(ts, i + words(e, n).len(), e, n) || opens(ts, i + words(e, n).len()),
        n == 0,
        e.kind is App,
    ensures
        f.parens == n,
        same_kind(f.kind, e),
        p_expr_postfix(ts, i, grammar(ts, i)) == p_postfix_tail(
            ts,
            i + words(e, n).len(),
            start_at(ts, i),
            f,
            grammar(ts, i),
        ),
        tok_at(ts, i) != Tok::Not,
        tok_at(ts, i) != Tok::Minus,
    decreases e, 0nat, 0nat,
{
    let v = words(e, n);
    let j = i + v.len();
    let g = grammar(ts, i);
    let start = start_at(ts, i);
    words_some(e, n);
    assert(v[0] == v[0]);
    match e.kind {
        ExprKindV::App(a, vs) => {
            let wa = words(*a, a.parens as nat);
            let wb = word_list(vs, 0);
            let l = seq![(Tok::LParen, seq!['('])];
            let r = seq![(Tok::RParen, seq![')'])];
            stand_parts(ts, i, wa, l + wb + r);
            let ja = i + wa.len();
            stand_parts(ts, ja, l + wb, r);
            stand_parts(ts, ja, l, wb);
            assert(l[0].0 == Tok::LParen);
            assert(r[0].0 == Tok::RParen);
            words_some(*a, a.parens as nat);
            let fa = posts(ts, i, *a, a.parens as nat);
            let fs = lists(ts, i, ja + 1, Seq::empty(), vs, 0);
            let f = expr_at(ExprKindV::App(Box::new(fa), fs), span_from(ts, j, start));
            reveal_with_fuel(p_postfix_tail, 2);
            assert(p_postfix_tail(ts, ja, start, fa, g) == p_postfix_tail(ts, j, start, f, g));
            f
        },
        _ => e,
    }
}

/// A set.
proof fn posts_set(ts: Seq<TokenV>, i: int, e: ExprV, n: nat) -> (f: ExprV)
    requires
        is_tidy(e),
        is_whole(e, n),
        0 <= i,
        n <= u32::MAX,
        stand_at(ts, i, words(e, n)),
        i + words(e, n).len() < ts.len(),
        ends_at(ts, i + words(e, n).len(), e, n) || opens(ts, i + words(e, n).len()),
        n == 0,
        e.kind is SetList,
    ensures
        f.parens == n,
        same_kind(f.kind, e),
        p_expr_postfix(ts, i, grammar(ts, i)) == p_postfix_tail(
            ts,
            i + words(e, n).len(),
            start_at(ts, i),
            f,
            grammar(ts, i),
        ),
        tok_at(ts, i) != Tok::Not,
        tok_at(ts, i) != Tok::Minus,
    decreases e, 0nat, 0nat,
{
    let v = words(e, n);
    let j = i + v.len();
    let g = grammar(ts, i);
    let start = start_at(ts, i);
    words_some(e, n);
    assert(v[0] == v[0]);
    match e.kind {
        ExprKindV::SetList(vs) => {
            let wb = word_list(vs, 0);
            let l = seq![(Tok::LBrace, seq!['{'])];
            let r = seq![(Tok::RBrace, seq!['}'])];
            stand_parts(ts, i, l + wb, r);
            stand_parts(ts, i, l, wb);
            assert(l[0].0 == Tok::LBrace);
            assert(r[0].0 == Tok::RBrace);
            let fs = lists(ts, i, i + 1, Seq::empty(), vs, 0);
            no_colon(ts, i + 1, vs);
            reveal(p_expr_primary);
            reveal(p_set_list_expr);
            let f = p_expr_primary(ts, i, g)->Ok_0.0;
            primary_first(ts, i, f, j);
            f
        },
        _ => e,
    }
}

/// A tuple.
proof fn posts_tuple(ts: Seq<TokenV>, i: int, e: ExprV, n: nat) -> (f: ExprV)
    requires
        is_tidy(e),
        is_whole(e, n),
        0 <= i,
        n <= u32::MAX,
        stand_at(ts, i, words(e, n)),
        i + words(e, n).len() < ts.len(),
        ends_at(ts, i + words(e, n).len(), e, n) || opens(ts, i + words(e, n).len()),
        n == 0,
        e.kind is TupleLit,
    ensures
        f.parens == n,
        same_kind(f.kind, e),
        p_expr_postfix(ts, i, grammar(ts, i)) == p_postfix_tail(
            ts,
            i + words(e, n).len(),
            start_at(ts, i),
            f,
            grammar(ts, i),
        ),
        tok_at(ts, i) != Tok::Not,
        tok_at(ts, i) != Tok::Minus,
    decreases e, 0nat, 0nat,
{
    let v = words(e, n);
    let j = i + v.len();
    let g = grammar(ts, i);
    let start = start_at(ts, i);
    words_some(e, n);
    assert(v[0] == v[0]);
    match e.kind {
        ExprKindV::TupleLit(vs) => {
            reveal_with_fuel(are_tidy, 3);
            reveal_with_fuel(all_alike, 3);
            reveal_with_fuel(is_tidy, 2);
            assert(are_tidy(vs, 0));
            assert(is_tidy(vs[0]));
            assert(are_tidy(vs, 1));
            let w0 = words(vs[0], vs[0].parens as nat);
            let c = seq![(Tok::Comma, seq![','])];
            let wb = word_list(vs, 1);
            let l = seq![(Tok::LParen, seq!['('])];
            let r = seq![(Tok::RParen, seq![')'])];
            stand_parts(ts, i, l + word_list(vs, 0), r);
            stand_parts(ts, i, l, word_list(vs, 0));
            stand_parts(ts, i + 1, w0, c + wb);
            let j0 = i + 1 + w0.len();
            stand_parts(ts, j0, c, wb);
            assert(l[0].0 == Tok::LParen);
            assert(r[0].0 == Tok::RParen);
            assert(c[0].0 == Tok::Comma);
            let f0 = goes_on(ts, i, i + 1, 0, vs[0]);
            let fs = lists(ts, i, j0 + 1, seq![f0], vs, 1);
            assert(fs.take(1)[0] == f0);
            reveal(p_expr_primary);
            reveal(p_paren_expr);
            let f = p_expr_primary(ts, i, g)->Ok_0.0;
            primary_first(ts, i, f, j);
            f
        },
        _ => e,
    }
}

/// A conditional.
proof fn posts_conditional(ts: Seq<TokenV>, i: int, e: ExprV, n: nat) -> (f: ExprV)
    requires
        is_tidy(e),
        is_whole(e, n),
        0 <= i,
        n <= u32::MAX,
        stand_at(ts, i, words(e, n)),
        i + words(e, n).len() < ts.len(),
        ends_at(ts, i + words(e, n).len(), e, n) || opens(ts, i + words(e, n).len()),
        n == 0,
        e.kind is Conditional,
    ensures
        f.parens == n,
        same_kind(f.kind, e),
        p_expr_postfix(ts, i, grammar(ts, i)) == p_postfix_tail(
            ts,
            i + words(e, n).len(),
            start_at(ts, i),
            f,
            grammar(ts, i),
        ),
        tok_at(ts, i) != Tok::Not,
        tok_at(ts, i) != Tok::Minus,
    decreases e, 0nat, 0nat,
{
    let v = words(e, n);
    let j = i + v.len();
    let g = grammar(ts, i);
    let start = start_at(ts, i);
    words_some(e, n);
    assert(v[0] == v[0]);
    match e.kind {
        ExprKindV::Conditional { cond, then_, els, is_elsif } => {
            let w0 = seq![(Tok::If, seq!['I', 'F'])];
            let wc = words(*cond, cond.parens as nat);
            let w1 = seq![(Tok::Then, seq!['T', 'H', 'E', 'N'])];
            let wt = words(*then_, then_.parens as nat);
            let wr = word_rest(*els);
            let w2 = seq![(Tok::Endif, seq!['E', 'N', 'D', 'I', 'F'])];
            stand_parts(ts, i, w0, wc + (w1 + (wt + (wr + w2))));
            stand_parts(ts, i + 1, wc, w1 + (wt + (wr + w2)));
            let j1 = i + 1 + wc.len();
            stand_parts(ts, j1, w1, wt + (wr + w2));
            stand_parts(ts, j1 + 1, wt, wr + w2);
            let j2 = j1 + 1 + wt.len();
            stand_parts(ts, j2, wr, w2);
            assert(w0[0].0 == Tok::If);
            assert(w1[0].0 == Tok::Then);
            assert(w2[0].0 == Tok::Endif);
            rest_starts(*els);
            assert(wr[0] == wr[0]);
            let fc = goes_on(ts, i, i + 1, 0, *cond);
            let ft = goes_on(ts, i, j1 + 1, 0, *then_);
            let fr = branches(ts, i, j2, start, *els);
            reveal(p_expr_primary);
            reveal(p_if_expr);
            let f = p_expr_primary(ts, i, g)->Ok_0.0;
            primary_first(ts, i, f, j);
            f
        },
        _ => e,
    }
}

/// A name.
proof fn posts_name(ts: Seq<TokenV>, i: int, e: ExprV, n: nat) -> (f: ExprV)
    requires
        is_tidy(e),
        is_whole(e, n),
        0 <= i,
        n <= u32::MAX,
        stand_at(ts, i, words(e, n)),
        i + words(e, n).len() < ts.len(),
        ends_at(ts, i + words(e, n).len(), e, n) || opens(ts, i + words(e, n).len()),
        n == 0,
        e.kind is Name,
    ensures
        f.parens == n,
        same_kind(f.kind, e),
        p_expr_postfix(ts, i, grammar(ts, i)) == p_postfix_tail(
            ts,
            i + words(e, n).len(),
            start_at(ts, i),
            f,
            grammar(ts, i),
        ),
        tok_at(ts, i) != Tok::Not,
        tok_at(ts, i) != Tok::Minus,
    decreases e, 0nat, 0nat,
{
    let v = words(e, n);
    let j = i + v.len();
    let g = grammar(ts, i);
    let start = start_at(ts, i);
    words_some(e, n);
    assert(v[0] == v[0]);
    reveal(p_expr_primary);
    reveal(p_name_expr);
    reveal(p_name);
    reveal(p_ident);
    let f = p_expr_primary(ts, i, g)->Ok_0.0;
    primary_first(ts, i, f, j);
    f
}

/// A next value.
proof fn posts_next(ts: Seq<TokenV>, i: int, e: ExprV, n: nat) -> (f: ExprV)
    requires
        is_tidy(e),
        is_whole(e, n),
        0 <= i,
        n <= u32::MAX,
        stand_at(ts, i, words(e, n)),
        i + words(e, n).len() < ts.len(),
        ends_at(ts, i + words(e, n).len(), e, n) || opens(ts, i + words(e, n).len()),
        n == 0,
        e.kind is Next,
    ensures
        f.parens == n,
        same_kind(f.kind, e),
        p_expr_postfix(ts, i, grammar(ts, i)) == p_postfix_tail(
            ts,
            i + words(e, n).len(),
            start_at(ts, i),
            f,
            grammar(ts, i),
        ),
        tok_at(ts, i) != Tok::Not,
        tok_at(ts, i) != Tok::Minus,
    decreases e, 0nat, 0nat,
{
    let v = words(e, n);
    let j = i + v.len();
    let g = grammar(ts, i);
    let start = start_at(ts, i);
    words_some(e, n);
    assert(v[0] == v[0]);
    assert(v[1] == (Tok::Quote, seq!['\'']));
    reveal(p_expr_primary);
    reveal(p_next_expr);
    reveal(p_ident);
    let f = p_expr_primary(ts, i, g)->Ok_0.0;
    primary_first(ts, i, f, j);
    f
}

/// A numeral.
proof fn posts_numeral(ts: Seq<TokenV>, i: int, e: ExprV, n: nat) -> (f: ExprV)
    requires
        is_tidy(e),
        is_whole(e, n),
        0 <= i,
        n <= u32::MAX,
        stand_at(ts, i, words(e, n)),
        i + words(e, n).len() < ts.len(),
        ends_at(ts, i + words(e, n).len(), e, n) || opens(ts, i + words(e, n).len()),
        n == 0,
        e.kind is Numeral,
    ensures
        f.parens == n,
        same_kind(f.kind, e),
        p_expr_postfix(ts, i, grammar(ts, i)) == p_postfix_tail(
            ts,
            i + words(e, n).len(),
            start_at(ts, i),
            f,
            grammar(ts, i),
        ),
        tok_at(ts, i) != Tok::Not,
        tok_at(ts, i) != Tok::Minus,
    decreases e, 0nat, 0nat,
{
    let v = words(e, n);
    let j = i + v.len();
    let g = grammar(ts, i);
    let start = start_at(ts, i);
    words_some(e, n);
    assert(v[0] == v[0]);
    reveal(p_expr_primary);
    reveal(p_numeral_expr);
    let f = p_expr_primary(ts, i, g)->Ok_0.0;
    primary_first(ts, i, f, j);
    f
}

/// The parser makes of its tokens what an expression in parentheses or without operators begins with, and goes on
/// behind it.
proof fn posts(ts: Seq<TokenV>, i: int, e: ExprV, n: nat) -> (f: ExprV)
    requires
        is_tidy(e),
        is_whole(e, n),
        0 <= i,
        n <= u32::MAX,
        stand_at(ts, i, words(e, n)),
        i + words(e, n).len() < ts.len(),
        ends_at(ts, i + words(e, n).len(), e, n) || opens(ts, i + words(e, n).len()),
    ensures
        f.parens == n,
        same_kind(f.kind, e),
        p_expr_postfix(ts, i, grammar(ts, i)) == p_postfix_tail(
            ts,
            i + words(e, n).len(),
            start_at(ts, i),
            f,
            grammar(ts, i),
        ),
        tok_at(ts, i) != Tok::Not,
        tok_at(ts, i) != Tok::Minus,
    decreases e, 0nat, 3 * n + 1,
{
    if n > 0 {
        posts_enclosed(ts, i, e, n)
    } else {
        match e.kind {
            ExprKindV::ArraySelect(..) => posts_element(ts, i, e, n),
            ExprKindV::RecordSelect(..) => posts_field(ts, i, e, n),
            ExprKindV::App(..) => posts_application(ts, i, e, n),
            ExprKindV::SetList(..) => posts_set(ts, i, e, n),
            ExprKindV::TupleLit(..) => posts_tuple(ts, i, e, n),
            ExprKindV::Conditional { .. } => posts_conditional(ts, i, e, n),
            ExprKindV::Name(..) => posts_name(ts, i, e, n),
            ExprKindV::Next(..) => posts_next(ts, i, e, n),
            _ => posts_numeral(ts, i, e, n),
        }
    }
}

/// Behind the first word of a list stands no colon.
proof fn no_colon(ts: Seq<TokenV>, i: int, v: Seq<ExprV>)
    requires
        0 <= i,
        v.len() > 0,
        are_tidy(v, 0),
        stand_at(ts, i, word_list(v, 0)),
        i + word_list(v, 0).len() < ts.len(),
        closing(tok_at(ts, i + word_list(v, 0).len())),
    ensures
        tok_at(ts, i + 1) != Tok::Colon,
{
    all_words(v, 0);
    let w = word_list(v, 0);
    reveal_with_fuel(are_tidy, 2);
    words_some(v[0], v[0].parens as nat);
    if w.len() > 1 {
        assert(w[1].0 != Tok::Colon);
        assert(ts[i + 1].tok == w[1].0);
    }
}

/// No token of an expression is a colon.
proof fn words_plain(e: ExprV, n: nat)
    ensures
        words(e, n).len() > 0 || !is_tidy(e),
        forall|k: int| 0 <= k < words(e, n).len() ==> (#[trigger] words(e, n)[k]).0 != Tok::Colon,
    decreases e, 0nat, n,
{
    if n > 0 {
        words_plain(e, (n - 1) as nat);
    } else {
        match e.kind {
            ExprKindV::Binary(o, a, b) => {
                words_plain(*a, a.parens as nat);
                words_plain(*b, b.parens as nat);
            },
            ExprKindV::Unary(o, a) => {
                words_plain(*a, a.parens as nat);
            },
            ExprKindV::ArraySelect(a, b) => {
                words_plain(*a, a.parens as nat);
                words_plain(*b, b.parens as nat);
            },
            ExprKindV::RecordSelect(a, x) => {
                words_plain(*a, a.parens as nat);
            },
            ExprKindV::App(a, v) => {
                words_plain(*a, a.parens as nat);
                all_words(v, 0);
            },
            ExprKindV::SetList(v) => {
                all_words(v, 0);
            },
            ExprKindV::TupleLit(v) => {
                all_words(v, 0);
            },
            ExprKindV::Conditional { cond, then_, els, is_elsif } => {
                words_plain(*cond, cond.parens as nat);
                words_plain(*then_, then_.parens as nat);
                rest_plain(*els);
            },
            _ => {},
        }
    }
}

proof fn rest_plain(e: ExprV)
    ensures
        forall|k: int| 0 <= k < word_rest(e).len() ==> (#[trigger] word_rest(e)[k]).0 != Tok::Colon,
    decreases e, 1nat, 0nat,
{
    if is_branch(e) {
        match e.kind {
            ExprKindV::Conditional { cond, then_, els, is_elsif } => {
                words_plain(*cond, cond.parens as nat);
                words_plain(*then_, then_.parens as nat);
                rest_plain(*els);
            },
            _ => {},
        }
    } else {
        words_plain(e, e.parens as nat);
    }
}

proof fn all_words(v: Seq<ExprV>, i: int)
    ensures
        forall|k: int| 0 <= k < word_list(v, i).len() ==> (#[trigger] word_list(v, i)[k]).0 != Tok::Colon,
    decreases v, 0nat, v.len() - i,
{
    if 0 <= i < v.len() {
        words_plain(v[i], v[i].parens as nat);
        all_words(v, i + 1);
    }
}

/// The parser makes an expression of its tokens, and goes on behind it.
proof fn parses(ts: Seq<TokenV>, i: int, m: u8, e: ExprV, n: nat) -> (f: ExprV)
    requires
        is_tidy(e),
        0 <= i,
        n <= u32::MAX,
        stand_at(ts, i, words(e, n)),
        ends_at(ts, i + words(e, n).len(), e, n),
        strength(e, n) >= m,
    ensures
        f.parens == n,
        same_kind(f.kind, e),
        p_expr_bp(ts, i, m, grammar(ts, i)) == p_expr_tail(
            ts,
            i + words(e, n).len(),
            start_at(ts, i),
            m,
            f,
            grammar(ts, i),
        ),
    decreases e, 0nat, 3 * n + 2,
{
    let v = words(e, n);
    let j = i + v.len();
    let g = grammar(ts, i);
    let start = start_at(ts, i);
    words_some(e, n);
    assert(v[0] == v[0]);
    if is_whole(e, n) {
        let f = posts(ts, i, e, n);
        reveal(p_expr_bp);
        reveal_with_fuel(p_postfix_tail, 1);
        f
    } else {
        match e.kind {
            ExprKindV::Binary(o, a, b) => {
                let wa = words(*a, a.parens as nat);
                let wb = words(*b, b.parens as nat);
                let wo = seq![(op_token(o), op_name(o))];
                stand_parts(ts, i, wa + wo, wb);
                stand_parts(ts, i, wa, wo);
                assert(wo[0] == (op_token(o), op_name(o)));
                let ja = i + wa.len();
                words_some(*a, a.parens as nat);
                words_some(*b, b.parens as nat);
                operator_read_back(o);
                last_bound(*a, a.parens as nat);
                let fa = parses(ts, i, m, *a, a.parens as nat);
                let bp = prec_of(o);
                let min: u8 = if o == BinOp::Implies {
                    bp
                } else {
                    (bp + 1) as u8
                };
                reveal_with_fuel(last, 2);
                let fb = goes_on(ts, i, ja + 1, min, *b);
                let f = expr_at(ExprKindV::Binary(o, Box::new(fa), Box::new(fb)), span_from(ts, j, start));
                reveal_with_fuel(p_expr_tail, 2);
                assert(p_expr_tail(ts, ja, start, m, fa, g) == p_expr_tail(ts, j, start, m, f, g));
                f
            },
            ExprKindV::Unary(o, a) => {
                let wa = words(*a, a.parens as nat);
                let wo = seq![
                    if o == UnOp::Not {
                        (Tok::Not, seq!['N', 'O', 'T'])
                    } else {
                        (Tok::Minus, seq!['-'])
                    },
                ];
                stand_parts(ts, i, wo, wa);
                assert(wo[0] == v[0]);
                let min: u8 = if o == UnOp::Not {
                    51
                } else {
                    85
                };
                words_some(*a, a.parens as nat);
                reveal_with_fuel(last, 2);
                let fa = goes_on(ts, i, i + 1, min, *a);
                reveal(p_expr_bp);
                expr_at(ExprKindV::Unary(o, Box::new(fa)), span_from(ts, j, start))
            },
            _ => e,
        }
    }
}

/// From place `i` to place `j` of a text stand the tokens.
#[verifier::opaque]
spec fn lexes(s: Seq<char>, i: int, v: Seq<(Tok, Seq<char>)>, j: int) -> bool {
    match (tokens(s, i), tokens(s, j)) {
        (Ok(q), Ok(r)) => q.len() == v.len() + r.len() && stand_at(q, 0, v) && q.skip(v.len() as int) == r,
        (_, Err(_)) => true,
        _ => false,
    }
}

proof fn lexes_on(
    s: Seq<char>,
    i: int,
    v: Seq<(Tok, Seq<char>)>,
    j: int,
    w: Seq<(Tok, Seq<char>)>,
    k: int,
)
    requires
        lexes(s, i, v, j),
        lexes(s, j, w, k),
    ensures
        lexes(s, i, v + w, k),
{
    reveal(lexes);
    if tokens(s, k) is Ok {
        let q = tokens(s, i)->Ok_0;
        let r = tokens(s, j)->Ok_0;
        let t = tokens(s, k)->Ok_0;
        let z = v + w;
        assert forall|x: int| 0 <= x < z.len() implies q[0 + x].tok == (#[trigger] z[x]).0 && q[0 + x].text == z[x].1 by {
            if x < v.len() {
                assert(z[x] == v[x]);
                assert(q[0 + x].tok == v[x].0);
            } else {
                let y = x - v.len();
                assert(z[x] == w[y]);
                assert(r[0 + y].tok == w[y].0);
                assert(r[y] == q.skip(v.len() as int)[y]);
            }
        }
        assert(q.skip(z.len() as int) =~= t) by {
            assert forall|x: int| 0 <= x < t.len() implies q.skip(z.len() as int)[x] == t[x] by {
                assert(t[x] == r.skip(w.len() as int)[x]);
                assert(r[w.len() + x] == q.skip(v.len() as int)[w.len() + x]);
            }
        }
    }
}

proof fn lexes_one(s: Seq<char>, i: int, at: int, tok: Tok, text: Seq<char>, k: int)
    requires
        0 <= i,
        skipped(s, i) == at,
        at < s.len(),
        scan(s, at) == Ok::<(Tok, Seq<char>, int), Seq<char>>((tok, text, k)),
        i < k <= s.len(),
    ensures
        lexes(s, i, seq![(tok, text)], k),
{
    reveal(lexes);
    reveal_with_fuel(tokens, 2);
    if tokens(s, k) is Ok {
        let q = tokens(s, i)->Ok_0;
        let r = tokens(s, k)->Ok_0;
        assert(q.skip(1) =~= r);
        assert(q[0].tok == tok && q[0].text == text);
    }
}

/// The character starts an operation.
spec fn starter(c: char) -> bool {
    ident_start(c) || digit(c) || c == '(' || c == '-' || c == '{'
}

proof fn run_moves(s: Seq<char>, i: int, c: Class)
    ensures
        run_end(s, i, c) >= i,
    decreases s.len() - i,
{
    if 0 <= i < s.len() && crate::lexer::belongs(c, s[i]) {
        run_moves(s, i + 1, c);
    }
}

proof fn scan_moves(s: Seq<char>, i: int)
    requires
        0 <= i < s.len(),
        starter(s[i]),
    ensures
        scan(s, i) matches Ok((_, _, k)) ==> k > i,
        skipped(s, i) == i,
{
    run_moves(s, i + 1, Class::Ident);
    run_moves(s, i + 1, Class::Digit);
    run_moves(s, i + 2, Class::Hex);
    run_moves(s, i + 2, Class::Bin);
    reveal_with_fuel(run_end, 2);
}

proof fn lexes_blank(s: Seq<char>, i: int)
    requires
        0 <= i,
        i + 1 < s.len(),
        s[i] == ' ',
        starter(s[i + 1]),
    ensures
        lexes(s, i, Seq::empty(), i + 1),
{
    reveal(lexes);
    scan_moves(s, i + 1);
    reveal_with_fuel(skipped, 2);
    reveal_with_fuel(tokens, 2);
    assert(skipped(s, i) == i + 1);
    assert(tokens(s, i) == tokens(s, i + 1));
    if tokens(s, i) is Ok {
        let q = tokens(s, i)->Ok_0;
        assert(q.skip(0) =~= q);
    }
}

proof fn run_over(s: Seq<char>, i: int, n: nat, c: Class)
    requires
        0 <= i,
        i + n <= s.len(),
        forall|k: int| i <= k < i + n ==> crate::lexer::belongs(c, #[trigger] s[k]),
        i + n < s.len() ==> !crate::lexer::belongs(c, s[i + n]),
    ensures
        run_end(s, i, c) == i + n,
    decreases n,
{
    if n > 0 {
        assert(crate::lexer::belongs(c, s[i]));
        run_over(s, i + 1, (n - 1) as nat, c);
    }
}

/// The character ends a word.
spec fn cut_char(c: char) -> bool {
    c == ' ' || c == '(' || c == ')' || c == '[' || c == ']' || c == '}' || c == '.' || c == ','
}

/// What may stand behind the text of an expression.
spec fn cut_at(s: Seq<char>, j: int) -> bool {
    j == s.len() || (0 <= j < s.len() && cut_char(s[j]))
}

proof fn sub_char(s: Seq<char>, i: int, t: Seq<char>, k: int)
    requires
        0 <= i,
        i + t.len() <= s.len(),
        s.subrange(i, i + t.len()) == t,
        0 <= k < t.len(),
    ensures
        s[i + k] == t[k],
{
    assert(s.subrange(i, i + t.len())[k] == s[i + k]);
}

proof fn sub_parts(s: Seq<char>, i: int, a: Seq<char>, b: Seq<char>)
    requires
        0 <= i,
        i + (a + b).len() <= s.len(),
        s.subrange(i, i + (a + b).len()) == a + b,
    ensures
        s.subrange(i, i + a.len()) == a,
        s.subrange(i + a.len(), i + a.len() + b.len()) == b,
{
    let z = a + b;
    let w = s.subrange(i, i + z.len());
    assert(s.subrange(i, i + a.len()) =~= a) by {
        assert forall|k: int| 0 <= k < a.len() implies s.subrange(i, i + a.len())[k] == a[k] by {
            assert(w[k] == z[k]);
        }
    }
    assert(s.subrange(i + a.len(), i + a.len() + b.len()) =~= b) by {
        assert forall|k: int| 0 <= k < b.len() implies s.subrange(i + a.len(), i + a.len() + b.len())[k] == b[k] by {
            assert(w[a.len() + k] == z[a.len() + k]);
        }
    }
}

proof fn lexes_word(s: Seq<char>, i: int, t: Seq<char>, tok: Tok)
    requires
        0 <= i,
        i + t.len() <= s.len(),
        s.subrange(i, i + t.len()) == t,
        t.len() > 0,
        ident_start(t[0]),
        forall|k: int| 0 <= k < t.len() ==> ident_cont(#[trigger] t[k]),
        word_kind(t) == tok,
        cut_at(s, i + t.len()) || (i + t.len() < s.len() && s[i + t.len()] == '\''),
    ensures
        lexes(s, i, seq![(tok, t)], i + t.len()),
{
    sub_char(s, i, t, 0);
    assert forall|k: int| i <= k < i + t.len() implies crate::lexer::belongs(Class::Ident, #[trigger] s[k]) by {
        sub_char(s, i, t, k - i);
        assert(ident_cont(t[k - i]));
    }
    run_over(s, i, t.len(), Class::Ident);
    scan_moves(s, i);
    assert(symbol(s[i], char_at(s, i + 1), char_at(s, i + 2)) is None);
    lexes_one(s, i, i, tok, t, i + t.len());
}

proof fn lexes_numeral(s: Seq<char>, i: int, t: Seq<char>)
    requires
        0 <= i,
        i + t.len() <= s.len(),
        s.subrange(i, i + t.len()) == t,
        is_figures(t),
        cut_at(s, i + t.len()),
    ensures
        lexes(s, i, seq![(Tok::Numeral, t)], i + t.len()),
{
    sub_char(s, i, t, 0);
    assert forall|k: int| i <= k < i + t.len() implies crate::lexer::belongs(Class::Digit, #[trigger] s[k]) by {
        sub_char(s, i, t, k - i);
        assert(digit(t[k - i]));
    }
    run_over(s, i, t.len(), Class::Digit);
    scan_moves(s, i);
    assert(digit(s[i]));
    if i + 1 < s.len() {
        if t.len() > 1 {
            assert(crate::lexer::belongs(Class::Digit, s[i + 1]));
        }
    }
    assert(number(s, i) == (t, i + t.len()));
    assert(symbol(s[i], char_at(s, i + 1), char_at(s, i + 2)) is None);
    lexes_one(s, i, i, Tok::Numeral, t, i + t.len());
}

/// A symbol of one character.
proof fn lexes_symbol(s: Seq<char>, i: int, c: char, tok: Tok)
    requires
        0 <= i < s.len(),
        s[i] == c,
        symbol(c, char_at(s, i + 1), char_at(s, i + 2)) == Some((tok, 1nat)),
    ensures
        lexes(s, i, seq![(tok, seq![c])], i + 1),
{
    assert(s.subrange(i, i + 1) =~= seq![c]);
    reveal_with_fuel(skipped, 2);
    lexes_one(s, i, i, tok, seq![c], i + 1);
}

/// An operator with blanks around it.
proof fn lexes_operator(s: Seq<char>, i: int, o: BinOp)
    requires
        0 <= i,
        i + op_name(o).len() + 2 <= s.len(),
        s.subrange(i, i + op_name(o).len() + 2) == seq![' '] + op_name(o) + seq![' '],
    ensures
        lexes(s, i, seq![(op_token(o), op_name(o))], i + 1 + op_name(o).len()),
        s[i + 1 + op_name(o).len()] == ' ',
{
    op_texts();
    operator_read_back(o);
    let t = op_name(o);
    let z = seq![' '] + t + seq![' '];
    sub_parts(s, i, seq![' '] + t, seq![' ']);
    sub_parts(s, i, seq![' '], t);
    sub_char(s, i, z, 0);
    sub_char(s, i, z, t.len() as int + 1);
    let k = i + 1 + t.len();
    assert(s.subrange(i + 1, k) == t);
    sub_char(s, i + 1, t, 0);
    if t.len() > 1 {
        sub_char(s, i + 1, t, 1);
    }
    if t.len() > 2 {
        sub_char(s, i + 1, t, 2);
    }
    reveal_with_fuel(skipped, 2);
    assert(skipped(s, i) == i + 1);
    if o == BinOp::Or || o == BinOp::Xor || o == BinOp::And || o == BinOp::IDiv || o == BinOp::Mod {
        reveal_with_fuel(run_end, 4);
        assert(run_end(s, i + 1, Class::Ident) == k);
        assert(run_end(t, 0, Class::Ident) == t.len());
        assert(t.subrange(0, t.len() as int) =~= t);
        assert(symbol(s[i + 1], char_at(s, i + 2), char_at(s, i + 3)) is None);
        assert(scan(s, i + 1) == Ok::<(Tok, Seq<char>, int), Seq<char>>((op_token(o), t, k)));
    } else {
        assert(symbol(s[i + 1], char_at(s, i + 2), char_at(s, i + 3)) == Some((op_token(o), t.len())));
    }
    lexes_one(s, i, i + 1, op_token(o), t, k);
}

proof fn text_starts(e: ExprV, n: nat)
    requires
        is_tidy(e),
    ensures
        tx(e, n).len() > 0,
        starter(tx(e, n)[0]),
        is_whole(e, n) ==> tx(e, n)[0] != '-',
    decreases e, n,
{
    if n > 0 {
        text_starts(e, (n - 1) as nat);
    } else {
        match e.kind {
            ExprKindV::Binary(o, a, b) => {
                text_starts(*a, a.parens as nat);
            },
            ExprKindV::Unary(o, a) => {
                text_starts(*a, a.parens as nat);
            },
            ExprKindV::ArraySelect(a, b) => {
                text_starts(*a, a.parens as nat);
            },
            ExprKindV::RecordSelect(a, x) => {
                text_starts(*a, a.parens as nat);
            },
            ExprKindV::App(a, v) => {
                text_starts(*a, a.parens as nat);
            },
            _ => {},
        }
    }
}

proof fn list_starts(v: Seq<ExprV>, i: int)
    requires
        0 <= i < v.len(),
        are_tidy(v, i),
    ensures
        tx_list(v, i).len() > 0,
        starter(tx_list(v, i)[0]),
{
    reveal_with_fuel(are_tidy, 2);
    text_starts(v[i], v[i].parens as nat);
}

/// The text stands in another at a place, and may end there.
spec fn text_at(s: Seq<char>, i: int, t: Seq<char>) -> bool {
    &&& 0 <= i
    &&& i + t.len() <= s.len()
    &&& s.subrange(i, i + t.len()) == t
    &&& cut_at(s, i + t.len())
}

proof fn split(s: Seq<char>, i: int, a: Seq<char>, b: Seq<char>)
    requires
        text_at(s, i, a + b),
        b.len() > 0,
    ensures
        i + a.len() < s.len(),
        s.subrange(i, i + a.len()) == a,
        s[i + a.len()] == b[0],
        text_at(s, i + a.len(), b),
        cut_char(b[0]) ==> text_at(s, i, a),
{
    sub_parts(s, i, a, b);
    sub_char(s, i + a.len(), b, 0);
}

/// The character is a symbol of its own before the other.
spec fn is_symbol(c: char, d: char, tok: Tok) -> bool {
    forall|e: char| #[trigger] symbol(c, d, e) == Some((tok, 1nat))
}

/// An expression or a list between two symbols.
proof fn reads_enclosed(
    s: Seq<char>,
    i: int,
    c: char,
    ctok: Tok,
    t: Seq<char>,
    v: Seq<(Tok, Seq<char>)>,
    d: char,
    dtok: Tok,
)
    requires
        text_at(s, i, seq![c] + t + seq![d]),
        t.len() > 0,
        is_symbol(c, t[0], ctok),
        forall|e: char| #[trigger] is_symbol(d, e, dtok),
        cut_char(d),
        text_at(s, i + 1, t) ==> lexes(s, i + 1, v, i + 1 + t.len()),
    ensures
        lexes(s, i, seq![(ctok, seq![c])] + v + seq![(dtok, seq![d])], i + t.len() + 2),
{
    let l = seq![c];
    let r = seq![d];
    assert(l + t + r =~= l + (t + r));
    let j = i + t.len() + 1;
    split(s, i, l, t + r);
    split(s, i + 1, t, r);
    sub_char(s, i, l, 0);
    assert(is_symbol(d, char_at(s, j + 1), dtok));
    assert(char_at(s, i + 1) == t[0]);
    assert(symbol(c, char_at(s, i + 1), char_at(s, i + 2)) == Some((ctok, 1nat)));
    assert(symbol(d, char_at(s, j + 1), char_at(s, j + 2)) == Some((dtok, 1nat)));
    lexes_symbol(s, i, c, ctok);
    lexes_symbol(s, j, d, dtok);
    let wl = seq![(ctok, l)];
    lexes_on(s, i, wl, i + 1, v, j);
    lexes_on(s, i, wl + v, j, seq![(dtok, r)], j + 1);
}

/// The text is a keyword.
spec fn is_keyword(w: Seq<char>, tok: Tok) -> bool {
    &&& w.len() > 0
    &&& ident_start(w[0])
    &&& forall|k: int| 0 <= k < w.len() ==> ident_cont(#[trigger] w[k])
    &&& word_kind(w) == tok
}

proof fn keywords()
    ensures
        is_keyword(seq!['I', 'F'], Tok::If),
        is_keyword(seq!['T', 'H', 'E', 'N'], Tok::Then),
        is_keyword(seq!['E', 'L', 'S', 'I', 'F'], Tok::Elsif),
        is_keyword(seq!['E', 'L', 'S', 'E'], Tok::Else),
        is_keyword(seq!['E', 'N', 'D', 'I', 'F'], Tok::Endif),
{
    op_texts();
    reveal_strlit("TYPE");
    reveal_strlit("ARRAY");
    reveal_strlit("OF");
    reveal_strlit("WITH");
    reveal_strlit("LAMBDA");
    reveal_strlit("FORALL");
    reveal_strlit("EXISTS");
    reveal_strlit("LET");
    reveal_strlit("IN");
    reveal_strlit("IF");
    reveal_strlit("THEN");
    reveal_strlit("ELSE");
    reveal_strlit("ELSIF");
    reveal_strlit("ENDIF");
    let a = seq!['I', 'F'];
    let b = seq!['T', 'H', 'E', 'N'];
    let c = seq!['E', 'L', 'S', 'I', 'F'];
    let d = seq!['E', 'L', 'S', 'E'];
    let e = seq!['E', 'N', 'D', 'I', 'F'];
    assert("TYPE"@[1] == 'Y');
    assert("ARRAY"@[0] == 'A');
    assert("OF"@[0] == 'O');
    assert("WITH"@[0] == 'W');
    assert("LAMBDA"@[0] == 'L');
    assert("LET"@[0] == 'L');
    assert("IN"@[1] == 'N');
    assert("FORALL"@[0] == 'F');
    assert("EXISTS"@[1] == 'X');
    assert("ELSIF"@ =~= c);
    assert("IF"@ =~= a);
    assert("THEN"@ =~= b);
    assert("ELSE"@ =~= d);
    assert("ENDIF"@ =~= e);
    assert(upper(a) =~= a);
    assert(upper(b) =~= b);
    assert(upper(c) =~= c);
    assert(upper(d) =~= d);
    assert(upper(e) =~= e);
    assert(word_operator_of(a) is None);
    assert(word_operator_of(b) is None);
    assert(word_operator_of(c) is None);
    assert(word_operator_of(d) is None);
    assert(word_operator_of(e) is None);
    assert(a[0] == 'I' && b[0] == 'T' && c[0] == 'E' && d[0] == 'E' && e[0] == 'E');
    assert(a[1] == 'F' && b[1] == 'H' && c[1] == 'L' && d[1] == 'L' && e[1] == 'N');
    assert(c[3] == 'I' && d[3] == 'E');
    assert(keyword_of(a) == Some(Tok::If));
    assert(keyword_of(b) == Some(Tok::Then));
    assert(keyword_of(c) == Some(Tok::Elsif));
    assert(keyword_of(d) == Some(Tok::Else));
    assert(keyword_of(e) == Some(Tok::Endif));
}

/// A keyword with a blank behind it, and another in front of it where `lead` says so.
proof fn reads_keyword(s: Seq<char>, i: int, lead: bool, k: Seq<char>, w: Seq<char>, tok: Tok)
    requires
        0 <= i,
        is_keyword(w, tok),
        k == (if lead {
            seq![' ']
        } else {
            Seq::empty()
        }) + w + seq![' '],
        i + k.len() < s.len(),
        s.subrange(i, i + k.len()) == k,
        starter(s[i + k.len()]),
    ensures
        lexes(s, i, seq![(tok, w)], i + k.len()),
{
    let none = Seq::<(Tok, Seq<char>)>::empty();
    let wo = seq![(tok, w)];
    let p: int = if lead {
        1
    } else {
        0
    };
    let at = i + p;
    assert(s.subrange(at, at + w.len()) =~= w) by {
        assert forall|x: int| 0 <= x < w.len() implies s.subrange(at, at + w.len())[x] == w[x] by {
            sub_char(s, i, k, p + x);
        }
    }
    sub_char(s, i, k, p + w.len());
    sub_char(s, i, k, p);
    lexes_word(s, at, w, tok);
    lexes_blank(s, at + w.len());
    lexes_on(s, at, wo, at + w.len(), none, i + k.len());
    assert(wo + none =~= wo);
    if lead {
        sub_char(s, i, k, 0);
        lexes_blank(s, i);
        lexes_on(s, i, none, i + 1, wo, i + k.len());
        assert(none + wo =~= wo);
    }
}

/// A keyword behind a blank.
proof fn reads_last(s: Seq<char>, i: int, w: Seq<char>, tok: Tok)
    requires
        is_keyword(w, tok),
        text_at(s, i, seq![' '] + w),
    ensures
        lexes(s, i, seq![(tok, w)], i + 1 + w.len()),
{
    let none = Seq::<(Tok, Seq<char>)>::empty();
    let wo = seq![(tok, w)];
    split(s, i, seq![' '], w);
    sub_char(s, i, seq![' '], 0);
    lexes_word(s, i + 1, w, tok);
    lexes_blank(s, i);
    lexes_on(s, i, none, i + 1, wo, i + 1 + w.len());
    assert(none + wo =~= wo);
}

proof fn reads_next(s: Seq<char>, i: int, t: Seq<char>)
    requires
        text_at(s, i, t + seq!['\'']),
        is_word(t),
    ensures
        lexes(s, i, seq![(Tok::Identifier, t), (Tok::Quote, seq!['\''])], i + t.len() + 1),
{
    let q = seq!['\''];
    let j = i + t.len();
    sub_parts(s, i, t, q);
    sub_char(s, j, q, 0);
    lexes_word(s, i, t, Tok::Identifier);
    lexes_symbol(s, j, '\'', Tok::Quote);
    lexes_on(s, i, seq![(Tok::Identifier, t)], j, seq![(Tok::Quote, q)], j + 1);
    assert(seq![(Tok::Identifier, t)] + seq![(Tok::Quote, q)] =~= seq![(Tok::Identifier, t), (Tok::Quote, q)]);
}

proof fn reads_binary(
    s: Seq<char>,
    i: int,
    o: BinOp,
    ta: Seq<char>,
    tb: Seq<char>,
    wa: Seq<(Tok, Seq<char>)>,
    wb: Seq<(Tok, Seq<char>)>,
)
    requires
        text_at(s, i, ta + (seq![' '] + op_name(o) + seq![' ']) + tb),
        tb.len() > 0,
        starter(tb[0]),
        text_at(s, i, ta) ==> lexes(s, i, wa, i + ta.len()),
        ({
            let jb = i + ta.len() + op_name(o).len() + 2;
            text_at(s, jb, tb) ==> lexes(s, jb, wb, jb + tb.len())
        }),
    ensures
        lexes(s, i, wa + seq![(op_token(o), op_name(o))] + wb, i + ta.len() + op_name(o).len() + 2 + tb.len()),
{
    let to = seq![' '] + op_name(o) + seq![' '];
    let wo = seq![(op_token(o), op_name(o))];
    let ja = i + ta.len();
    let jb = ja + to.len();
    let j = jb + tb.len();
    sub_parts(s, i, ta + to, tb);
    sub_parts(s, i, ta, to);
    sub_char(s, ja, to, 0);
    lexes_operator(s, ja, o);
    sub_char(s, jb, tb, 0);
    lexes_blank(s, jb - 1);
    lexes_on(s, i, wa, ja, wo, jb - 1);
    lexes_on(s, i, wa + wo, jb - 1, Seq::empty(), jb);
    assert(wa + wo + Seq::<(Tok, Seq<char>)>::empty() =~= wa + wo);
    lexes_on(s, i, wa + wo, jb, wb, j);
}

proof fn reads_not(s: Seq<char>, i: int, t: Seq<char>, v: Seq<(Tok, Seq<char>)>)
    requires
        text_at(s, i, seq!['N', 'O', 'T', ' '] + t),
        t.len() > 0,
        starter(t[0]),
        text_at(s, i + 4, t) ==> lexes(s, i + 4, v, i + 4 + t.len()),
    ensures
        lexes(s, i, seq![(Tok::Not, seq!['N', 'O', 'T'])] + v, i + 4 + t.len()),
{
    let to = seq!['N', 'O', 'T', ' '];
    let word = seq!['N', 'O', 'T'];
    sub_parts(s, i, to, t);
    assert(to =~= word + seq![' ']);
    sub_parts(s, i, word, seq![' ']);
    sub_char(s, i, to, 3);
    not_word();
    lexes_word(s, i, word, Tok::Not);
    sub_char(s, i + 4, t, 0);
    lexes_blank(s, i + 3);
    let wo = seq![(Tok::Not, word)];
    lexes_on(s, i, wo, i + 3, Seq::empty(), i + 4);
    assert(wo + Seq::<(Tok, Seq<char>)>::empty() =~= wo);
    lexes_on(s, i, wo, i + 4, v, i + 4 + t.len());
}

proof fn reads_minus(s: Seq<char>, i: int, t: Seq<char>, v: Seq<(Tok, Seq<char>)>)
    requires
        text_at(s, i, seq!['-'] + t),
        t.len() > 0,
        starter(t[0]),
        t[0] != '-',
        text_at(s, i + 1, t) ==> lexes(s, i + 1, v, i + 1 + t.len()),
    ensures
        lexes(s, i, seq![(Tok::Minus, seq!['-'])] + v, i + 1 + t.len()),
{
    let to = seq!['-'];
    sub_parts(s, i, to, t);
    sub_char(s, i, to, 0);
    sub_char(s, i + 1, t, 0);
    lexes_symbol(s, i, '-', Tok::Minus);
    lexes_on(s, i, seq![(Tok::Minus, to)], i + 1, v, i + 1 + t.len());
}

/// The lexer makes of the text of a list its tokens.
proof fn reads_list(s: Seq<char>, i: int, v: Seq<ExprV>, k: int)
    requires
        0 <= k < v.len(),
        are_tidy(v, k),
        text_at(s, i, tx_list(v, k)),
    ensures
        lexes(s, i, word_list(v, k), i + tx_list(v, k).len()),
    decreases v, 0nat, v.len() - k,
{
    reveal_with_fuel(are_tidy, 2);
    let ta = tx(v[k], v[k].parens as nat);
    let wa = words(v[k], v[k].parens as nat);
    if k + 1 < v.len() {
        let rest = tx_list(v, k + 1);
        let wr = word_list(v, k + 1);
        let c = seq![',', ' '];
        let wc = seq![(Tok::Comma, seq![','])];
        list_starts(v, k + 1);
        split(s, i, ta, c + rest);
        let j = i + ta.len();
        split(s, j, c, rest);
        sub_char(s, j, c, 0);
        sub_char(s, j, c, 1);
        reads(s, i, v[k], v[k].parens as nat);
        lexes_symbol(s, j, ',', Tok::Comma);
        lexes_blank(s, j + 1);
        reads_list(s, j + 2, v, k + 1);
        let none = Seq::<(Tok, Seq<char>)>::empty();
        let end = j + 2 + rest.len();
        lexes_on(s, j + 1, none, j + 2, wr, end);
        assert(none + wr =~= wr);
        lexes_on(s, j, wc, j + 1, wr, end);
        lexes_on(s, i, wa, j, wc + wr, end);
    } else {
        reads(s, i, v[k], v[k].parens as nat);
    }
}

/// The lexer makes of the text of the branches of a conditional behind the first their tokens.
proof fn reads_rest(s: Seq<char>, i: int, e: ExprV)
    requires
        is_tidy_rest(e),
        text_at(s, i, tx_rest(e)),
    ensures
        lexes(s, i, word_rest(e), i + tx_rest(e).len()),
    decreases e, 2nat, 0nat,
{
    keywords();
    if is_branch(e) {
        match e.kind {
            ExprKindV::Conditional { cond, then_, els, is_elsif } => {
                let k0 = seq![' ', 'E', 'L', 'S', 'I', 'F', ' '];
                let w0 = seq!['E', 'L', 'S', 'I', 'F'];
                assert(k0 =~= seq![' '] + w0 + seq![' ']);
                let k1 = seq![' ', 'T', 'H', 'E', 'N', ' '];
                let w1 = seq!['T', 'H', 'E', 'N'];
                assert(k1 =~= seq![' '] + w1 + seq![' ']);
                let tc = tx(*cond, cond.parens as nat);
                let tt = tx(*then_, then_.parens as nat);
                let tr = tx_rest(*els);
                text_starts(*cond, cond.parens as nat);
                text_starts(*then_, then_.parens as nat);
                rest_text(*els);
                split(s, i, k0, tc + (k1 + (tt + tr)));
                let j0 = i + k0.len();
                split(s, j0, tc, k1 + (tt + tr));
                let j1 = j0 + tc.len();
                split(s, j1, k1, tt + tr);
                let j2 = j1 + k1.len();
                split(s, j2, tt, tr);
                let j3 = j2 + tt.len();
                reads_keyword(s, i, true, k0, w0, Tok::Elsif);
                reads(s, j0, *cond, cond.parens as nat);
                reads_keyword(s, j1, true, k1, w1, Tok::Then);
                reads(s, j2, *then_, then_.parens as nat);
                reads_rest(s, j3, *els);
                let v0 = seq![(Tok::Elsif, w0)];
                let v1 = seq![(Tok::Then, w1)];
                let vc = words(*cond, cond.parens as nat);
                let vt = words(*then_, then_.parens as nat);
                let vr = word_rest(*els);
                let end = j3 + tr.len();
                lexes_on(s, j2, vt, j3, vr, end);
                lexes_on(s, j1, v1, j2, vt + vr, end);
                lexes_on(s, j0, vc, j1, v1 + (vt + vr), end);
                lexes_on(s, i, v0, j0, vc + (v1 + (vt + vr)), end);
            },
            _ => {},
        }
    } else {
        let k0 = seq![' ', 'E', 'L', 'S', 'E', ' '];
        let w0 = seq!['E', 'L', 'S', 'E'];
        assert(k0 =~= seq![' '] + w0 + seq![' ']);
        let te = tx(e, e.parens as nat);
        text_starts(e, e.parens as nat);
        split(s, i, k0, te);
        let j0 = i + k0.len();
        reads_keyword(s, i, true, k0, w0, Tok::Else);
        reads(s, j0, e, e.parens as nat);
        lexes_on(s, i, seq![(Tok::Else, w0)], j0, words(e, e.parens as nat), j0 + te.len());
    }
}

proof fn rest_text(e: ExprV)
    requires
        is_tidy_rest(e),
    ensures
        tx_rest(e).len() > 0,
        tx_rest(e)[0] == ' ',
{
}

proof fn reads_conditional(s: Seq<char>, i: int, e: ExprV)
    requires
        is_tidy(e),
        e.kind is Conditional,
        text_at(s, i, tx(e, 0)),
    ensures
        lexes(s, i, words(e, 0), i + tx(e, 0).len()),
    decreases e, 0nat, 0nat,
{
    keywords();
    match e.kind {
        ExprKindV::Conditional { cond, then_, els, is_elsif } => {
            let k0 = seq!['I', 'F', ' '];
            let w0 = seq!['I', 'F'];
            assert(k0 =~= Seq::<char>::empty() + w0 + seq![' ']);
            let k1 = seq![' ', 'T', 'H', 'E', 'N', ' '];
            let w1 = seq!['T', 'H', 'E', 'N'];
            assert(k1 =~= seq![' '] + w1 + seq![' ']);
            let k2 = seq![' ', 'E', 'N', 'D', 'I', 'F'];
            let w2 = seq!['E', 'N', 'D', 'I', 'F'];
            assert(k2 =~= seq![' '] + w2);
            let tc = tx(*cond, cond.parens as nat);
            let tt = tx(*then_, then_.parens as nat);
            let tr = tx_rest(*els);
            text_starts(*cond, cond.parens as nat);
            text_starts(*then_, then_.parens as nat);
            rest_text(*els);
            split(s, i, k0, tc + (k1 + (tt + (tr + k2))));
            let j0 = i + k0.len();
            split(s, j0, tc, k1 + (tt + (tr + k2)));
            let j1 = j0 + tc.len();
            split(s, j1, k1, tt + (tr + k2));
            let j2 = j1 + k1.len();
            split(s, j2, tt, tr + k2);
            let j3 = j2 + tt.len();
            split(s, j3, tr, k2);
            let j4 = j3 + tr.len();
            reads_keyword(s, i, false, k0, w0, Tok::If);
            reads(s, j0, *cond, cond.parens as nat);
            reads_keyword(s, j1, true, k1, w1, Tok::Then);
            reads(s, j2, *then_, then_.parens as nat);
            reads_rest(s, j3, *els);
            reads_last(s, j4, w2, Tok::Endif);
            let v0 = seq![(Tok::If, w0)];
            let v1 = seq![(Tok::Then, w1)];
            let v2 = seq![(Tok::Endif, w2)];
            let vc = words(*cond, cond.parens as nat);
            let vt = words(*then_, then_.parens as nat);
            let vr = word_rest(*els);
            let end = j4 + k2.len();
            lexes_on(s, j3, vr, j4, v2, end);
            lexes_on(s, j2, vt, j3, vr + v2, end);
            lexes_on(s, j1, v1, j2, vt + (vr + v2), end);
            lexes_on(s, j0, vc, j1, v1 + (vt + (vr + v2)), end);
            lexes_on(s, i, v0, j0, vc + (v1 + (vt + (vr + v2))), end);
        },
        _ => {},
    }
}

/// Selections and applications.
proof fn reads_selected(s: Seq<char>, i: int, e: ExprV)
    requires
        is_tidy(e),
        e.kind is ArraySelect || e.kind is RecordSelect || e.kind is App,
        text_at(s, i, tx(e, 0)),
    ensures
        lexes(s, i, words(e, 0), i + tx(e, 0).len()),
    decreases e, 0nat, 0nat,
{
    match e.kind {
        ExprKindV::ArraySelect(a, b) => {
            let ta = tx(*a, a.parens as nat);
            let tb = tx(*b, b.parens as nat);
            text_starts(*b, b.parens as nat);
            split(s, i, ta, seq!['['] + tb + seq![']']);
            let ja = i + ta.len();
            reads(s, i, *a, a.parens as nat);
            if text_at(s, ja + 1, tb) {
                reads(s, ja + 1, *b, b.parens as nat);
            }
            reads_enclosed(s, ja, '[', Tok::LBrack, tb, words(*b, b.parens as nat), ']', Tok::RBrack);
            lexes_on(
                s,
                i,
                words(*a, a.parens as nat),
                ja,
                seq![(Tok::LBrack, seq!['['])] + words(*b, b.parens as nat) + seq![(Tok::RBrack, seq![']'])],
                ja + tb.len() + 2,
            );
        },
        ExprKindV::RecordSelect(a, x) => {
            let ta = tx(*a, a.parens as nat);
            let d = seq!['.'];
            split(s, i, ta, d + x.name);
            let ja = i + ta.len();
            split(s, ja, d, x.name);
            reads(s, i, *a, a.parens as nat);
            lexes_symbol(s, ja, '.', Tok::Dot);
            lexes_word(s, ja + 1, x.name, Tok::Identifier);
            let wd = seq![(Tok::Dot, d)];
            let wx = seq![(Tok::Identifier, x.name)];
            let end = ja + 1 + x.name.len();
            lexes_on(s, ja, wd, ja + 1, wx, end);
            lexes_on(s, i, words(*a, a.parens as nat), ja, wd + wx, end);
        },
        ExprKindV::App(a, v) => {
            let ta = tx(*a, a.parens as nat);
            let tb = tx_list(v, 0);
            list_starts(v, 0);
            split(s, i, ta, seq!['('] + tb + seq![')']);
            let ja = i + ta.len();
            reads(s, i, *a, a.parens as nat);
            if text_at(s, ja + 1, tb) {
                reads_list(s, ja + 1, v, 0);
            }
            reads_enclosed(s, ja, '(', Tok::LParen, tb, word_list(v, 0), ')', Tok::RParen);
            lexes_on(
                s,
                i,
                words(*a, a.parens as nat),
                ja,
                seq![(Tok::LParen, seq!['('])] + word_list(v, 0) + seq![(Tok::RParen, seq![')'])],
                ja + tb.len() + 2,
            );
        },
        _ => {},
    }
}

/// The lexer makes of the text of an expression its tokens.
proof fn reads(s: Seq<char>, i: int, e: ExprV, n: nat)
    requires
        is_tidy(e),
        text_at(s, i, tx(e, n)),
    ensures
        lexes(s, i, words(e, n), i + tx(e, n).len()),
    decreases e, 1nat, n,
{
    let t = tx(e, n);
    if n > 0 {
        let inner = tx(e, (n - 1) as nat);
        text_starts(e, (n - 1) as nat);
        if text_at(s, i + 1, inner) {
            reads(s, i + 1, e, (n - 1) as nat);
        }
        reads_enclosed(s, i, '(', Tok::LParen, inner, words(e, (n - 1) as nat), ')', Tok::RParen);
    } else {
        match e.kind {
            ExprKindV::Name(x) => {
                lexes_word(s, i, t, Tok::Identifier);
            },
            ExprKindV::Next(x) => {
                reads_next(s, i, x.name);
            },
            ExprKindV::Numeral(x) => {
                lexes_numeral(s, i, t);
            },
            ExprKindV::Binary(o, a, b) => {
                let ta = tx(*a, a.parens as nat);
                let tb = tx(*b, b.parens as nat);
                let jb = i + ta.len() + op_name(o).len() + 2;
                if text_at(s, i, ta) {
                    reads(s, i, *a, a.parens as nat);
                }
                text_starts(*b, b.parens as nat);
                if text_at(s, jb, tb) {
                    reads(s, jb, *b, b.parens as nat);
                }
                reads_binary(s, i, o, ta, tb, words(*a, a.parens as nat), words(*b, b.parens as nat));
            },
            ExprKindV::Unary(o, a) => {
                let ta = tx(*a, a.parens as nat);
                let wa = words(*a, a.parens as nat);
                text_starts(*a, a.parens as nat);
                let at = if o == UnOp::Not {
                    i + 4
                } else {
                    i + 1
                };
                if text_at(s, at, ta) {
                    reads(s, at, *a, a.parens as nat);
                }
                if o == UnOp::Not {
                    reads_not(s, i, ta, wa);
                } else {
                    reads_minus(s, i, ta, wa);
                }
            },
            ExprKindV::SetList(v) => {
                list_starts(v, 0);
                if text_at(s, i + 1, tx_list(v, 0)) {
                    reads_list(s, i + 1, v, 0);
                }
                reads_enclosed(s, i, '{', Tok::LBrace, tx_list(v, 0), word_list(v, 0), '}', Tok::RBrace);
            },
            ExprKindV::TupleLit(v) => {
                list_starts(v, 0);
                if text_at(s, i + 1, tx_list(v, 0)) {
                    reads_list(s, i + 1, v, 0);
                }
                reads_enclosed(s, i, '(', Tok::LParen, tx_list(v, 0), word_list(v, 0), ')', Tok::RParen);
            },
            ExprKindV::Conditional { .. } => {
                reads_conditional(s, i, e);
            },
            _ => {
                reads_selected(s, i, e);
            },
        }
    }
}

proof fn not_word()
    ensures
        word_kind(seq!['N', 'O', 'T']) == Tok::Not,
{
    op_texts();
    let t = seq!['N', 'O', 'T'];
    assert(t[0] == 'N');
    assert(t.len() == 3);
}

proof fn wrapped_text(e: ExprV, n: nat)
    ensures
        tx(e, n) == repeated('(', n) + tx(e, 0) + repeated(')', n),
    decreases n,
{
    if n > 0 {
        wrapped_text(e, (n - 1) as nat);
        let m = (n - 1) as nat;
        assert(seq!['('] + (repeated('(', m) + tx(e, 0) + repeated(')', m)) + seq![')'] =~= repeated('(', n) + tx(e, 0)
            + repeated(')', n));
    } else {
        assert(repeated('(', 0) + tx(e, 0) + repeated(')', 0) =~= tx(e, 0));
    }
}

/// Parentheses do not change what they enclose.
proof fn inner_text(e: ExprV, p: u32, n: nat)
    ensures
        tx(ExprV { parens: p, ..e }, n) == tx(e, n),
    decreases n,
{
    if n > 0 {
        inner_text(e, p, (n - 1) as nat);
    }
}

/// The printer writes an operand in the parentheses that it needs.
proof fn prints_operand(k: nat, out: Seq<char>, a: ExprV, min: u8, rhs: bool, n: usize)
    requires
        is_simple(a),
        tidied(a).parens == a.parens,
        (shown(k).expr)(out, a, n) == out + tx(tidied(a), a.parens as nat),
        (shown(k).expr)(out + "("@, a, n) == out + "("@ + tx(tidied(a), a.parens as nat),
    ensures
        w_prec(out, a, min, rhs, n, shown(k)) == out + tx(
            enclosed(tidied(a), needs(a, min, rhs)),
            enclosed(tidied(a), needs(a, min, rhs)).parens as nat,
        ),
{
    reveal(w_prec);
    reveal_strlit("(");
    reveal_strlit(")");
    assert("("@ =~= seq!['(']);
    assert(")"@ =~= seq![')']);
    if needs(a, min, rhs) {
        let t = tidied(a);
        inner_text(t, 1, 0);
        inner_text(t, 1, 1);
        assert(tx(t, 1) == seq!['('] + tx(t, 0) + seq![')']);
        assert(out + "("@ + tx(t, 0) + ")"@ =~= out + tx(t, 1));
    }
}

/// The printer writes the texts of expressions with commas and blanks between them.
proof fn prints_list(k: nat, out: Seq<char>, v: Seq<ExprV>, n: usize, i: int)
    requires
        0 <= i <= v.len(),
        are_simple(v, i),
        depths(v, i) < k,
    ensures
        w_exprs(out, v, ", "@, n, shown(k), i) == (if 0 < i < v.len() {
            out + seq![',', ' ']
        } else {
            out
        }) + tx_list(tidied_all(v), i),
    decreases v, 0nat, v.len() - i,
{
    reveal_with_fuel(w_exprs, 2);
    reveal_with_fuel(are_simple, 2);
    reveal_with_fuel(depths, 2);
    reveal_strlit(", ");
    assert(", "@ =~= seq![',', ' ']);
    let tv = tidied_all(v);
    if i < v.len() {
        let o1 = if i > 0 {
            out + ", "@
        } else {
            out
        };
        tidied_tidy(v[i]);
        prints(k, o1, v[i], n);
        let t = tx(tv[i], tv[i].parens as nat);
        prints_list(k, o1 + t, v, n, i + 1);
        assert(tv[i] == tidied(v[i]));
        if i + 1 < v.len() {
            assert(o1 + t + seq![',', ' '] + tx_list(tv, i + 1) =~= o1 + (t + (seq![',', ' '] + tx_list(tv, i + 1))));
        } else {
            assert(tx_list(tv, i + 1) =~= Seq::empty());
            assert(o1 + t + tx_list(tv, i + 1) =~= o1 + t);
        }
    } else {
        assert(tx_list(tv, i) =~= Seq::empty());
        assert(out + tx_list(tv, i) =~= out);
    }
}

/// The printer writes the branches of a conditional behind the first.
proof fn prints_rest(k: nat, out: Seq<char>, e: ExprV, n: usize)
    requires
        is_simple_rest(e),
        depth(e) + 1 < k,
    ensures
        (shown(k).tail)(out, e, n) == out + tx_rest(tidied(e)),
    decreases e, 2nat, 0nat,
{
    let l = (k - 1) as nat;
    shown_rules(k);
    reveal(w_tail);
    tidied_rest(e);
    let t = tidied(e);
    if is_branch(e) {
        match e.kind {
            ExprKindV::Conditional { cond, then_, els, is_elsif } => {
                reveal_strlit(" ELSIF ");
                reveal_strlit(" THEN ");
                let k0 = seq![' ', 'E', 'L', 'S', 'I', 'F', ' '];
                let k1 = seq![' ', 'T', 'H', 'E', 'N', ' '];
                assert(" ELSIF "@ =~= k0);
                assert(" THEN "@ =~= k1);
                tidied_tidy(*cond);
                tidied_tidy(*then_);
                let tc = tx(tidied(*cond), cond.parens as nat);
                let tt = tx(tidied(*then_), then_.parens as nat);
                let tr = tx_rest(tidied(*els));
                prints(l, out + k0, *cond, n);
                let o1 = out + k0 + tc;
                prints(l, o1 + k1, *then_, n);
                let o2 = o1 + k1 + tt;
                prints_rest(l, o2, *els, n);
                assert(tx_rest(t) == k0 + (tc + (k1 + (tt + tr))));
                assert(o2 + tr =~= out + (k0 + (tc + (k1 + (tt + tr)))));
            },
            _ => {},
        }
    } else {
        reveal_strlit(" ELSE ");
        let k0 = seq![' ', 'E', 'L', 'S', 'E', ' '];
        assert(" ELSE "@ =~= k0);
        tidied_tidy(e);
        prints(l, out + k0, e, n);
        assert(out + k0 + tx(t, t.parens as nat) =~= out + (k0 + tx(t, t.parens as nat)));
    }
}

/// What the printer writes for a kind of expression.
spec fn prints_kind(k: nat, out: Seq<char>, e: ExprV, n: usize) -> bool {
    w_expr_kind(out, e.kind, n, shown(k)) == out + tx(tidied(e), 0)
}

proof fn prints_selected(k: nat, out: Seq<char>, e: ExprV, n: usize)
    requires
        is_simple(e),
        depth(e) <= k,
        e.kind is ArraySelect || e.kind is RecordSelect || e.kind is App,
    ensures
        prints_kind(k, out, e, n),
    decreases e, 0nat, 0nat,
{
    reveal(w_expr_kind);
    reveal_strlit("[");
    reveal_strlit("]");
    reveal_strlit("(");
    reveal_strlit(")");
    reveal_strlit(".");
    assert("["@ =~= seq!['[']);
    assert("]"@ =~= seq![']']);
    assert("("@ =~= seq!['(']);
    assert(")"@ =~= seq![')']);
    assert("."@ =~= seq!['.']);
    match e.kind {
        ExprKindV::ArraySelect(a, b) => {
            tidied_tidy(*a);
            tidied_tidy(*b);
            prints(k, out, *a, n);
            prints(k, out + "("@, *a, n);
            prints_operand(k, out, *a, 100, false, n);
            let ea = enclosed(tidied(*a), needs(*a, 100, false));
            let ta = tx(ea, ea.parens as nat);
            let tb = tx(tidied(*b), b.parens as nat);
            prints(k, out + ta + "["@, *b, n);
            assert(out + ta + "["@ + tb + "]"@ =~= out + (ta + (seq!['['] + tb + seq![']'])));
        },
        ExprKindV::RecordSelect(a, x) => {
            tidied_tidy(*a);
            prints(k, out, *a, n);
            prints(k, out + "("@, *a, n);
            prints_operand(k, out, *a, 100, false, n);
            let ea = enclosed(tidied(*a), needs(*a, 100, false));
            let ta = tx(ea, ea.parens as nat);
            assert(out + ta + "."@ + x.name =~= out + (ta + (seq!['.'] + x.name)));
        },
        ExprKindV::App(a, v) => {
            tidied_tidy(*a);
            prints(k, out, *a, n);
            prints(k, out + "("@, *a, n);
            prints_operand(k, out, *a, 100, false, n);
            let ea = enclosed(tidied(*a), needs(*a, 100, false));
            let ta = tx(ea, ea.parens as nat);
            let tb = tx_list(tidied_all(v), 0);
            prints_list(k, out + ta + "("@, v, n, 0);
            assert(out + ta + "("@ + tb + ")"@ =~= out + (ta + (seq!['('] + tb + seq![')'])));
        },
        _ => {},
    }
}

proof fn prints_aggregate(k: nat, out: Seq<char>, e: ExprV, n: usize)
    requires
        is_simple(e),
        depth(e) <= k,
        e.kind is SetList || e.kind is TupleLit || e.kind is Conditional,
    ensures
        prints_kind(k, out, e, n),
    decreases e, 0nat, 0nat,
{
    reveal(w_expr_kind);
    match e.kind {
        ExprKindV::SetList(v) => {
            reveal_strlit("{");
            reveal_strlit("}");
            assert("{"@ =~= seq!['{']);
            assert("}"@ =~= seq!['}']);
            let tb = tx_list(tidied_all(v), 0);
            prints_list(k, out + "{"@, v, n, 0);
            assert(out + "{"@ + tb + "}"@ =~= out + (seq!['{'] + tb + seq!['}']));
        },
        ExprKindV::TupleLit(v) => {
            reveal_strlit("(");
            reveal_strlit(")");
            assert("("@ =~= seq!['(']);
            assert(")"@ =~= seq![')']);
            let tb = tx_list(tidied_all(v), 0);
            prints_list(k, out + "("@, v, n, 0);
            assert(out + "("@ + tb + ")"@ =~= out + (seq!['('] + tb + seq![')']));
        },
        ExprKindV::Conditional { cond, then_, els, is_elsif } => {
            reveal_strlit("IF ");
            reveal_strlit(" THEN ");
            reveal_strlit(" ENDIF");
            let k0 = seq!['I', 'F', ' '];
            let k1 = seq![' ', 'T', 'H', 'E', 'N', ' '];
            let k2 = seq![' ', 'E', 'N', 'D', 'I', 'F'];
            assert("IF "@ =~= k0);
            assert(" THEN "@ =~= k1);
            assert(" ENDIF"@ =~= k2);
            tidied_tidy(*cond);
            tidied_tidy(*then_);
            tidied_rest(*els);
            let tc = tx(tidied(*cond), cond.parens as nat);
            let tt = tx(tidied(*then_), then_.parens as nat);
            let tr = tx_rest(tidied(*els));
            prints(k, out + k0, *cond, n);
            let o1 = out + k0 + tc;
            prints(k, o1 + k1, *then_, n);
            let o2 = o1 + k1 + tt;
            prints_rest(k, o2, *els, n);
            assert(o2 + tr + k2 =~= out + (k0 + (tc + (k1 + (tt + (tr + k2))))));
        },
        _ => {},
    }
}

proof fn prints_operation(k: nat, out: Seq<char>, e: ExprV, n: usize)
    requires
        is_simple(e),
        depth(e) <= k,
        e.kind is Binary || e.kind is Unary,
    ensures
        prints_kind(k, out, e, n),
    decreases e, 0nat, 0nat,
{
    reveal(w_expr_kind);
    match e.kind {
        ExprKindV::Binary(o, a, b) => {
            reveal_strlit(" ");
            assert(" "@ =~= seq![' ']);
            tidied_tidy(*a);
            tidied_tidy(*b);
            let ea = enclosed(tidied(*a), needs(*a, prec_of(o), false));
            let eb = enclosed(tidied(*b), needs(*b, prec_of(o), true));
            let ta = tx(ea, ea.parens as nat);
            let tb = tx(eb, eb.parens as nat);
            prints(k, out, *a, n);
            prints(k, out + "("@, *a, n);
            prints_operand(k, out, *a, prec_of(o), false, n);
            let o3 = out + ta + " "@ + op_name(o) + " "@;
            prints(k, o3, *b, n);
            prints(k, o3 + "("@, *b, n);
            prints_operand(k, o3, *b, prec_of(o), true, n);
            assert(o3 + tb =~= out + (ta + (seq![' '] + op_name(o) + seq![' ']) + tb));
        },
        ExprKindV::Unary(o, a) => {
            reveal_strlit("NOT ");
            assert("NOT "@ =~= seq!['N', 'O', 'T', ' ']);
            op_texts();
            tidied_tidy(*a);
            let min = unary_prec(o);
            let ea = enclosed(tidied(*a), needs(*a, min, true));
            let ta = tx(ea, ea.parens as nat);
            let to = if o == UnOp::Not {
                "NOT "@
            } else {
                "-"@
            };
            prints(k, out + to, *a, n);
            prints(k, out + to + "("@, *a, n);
            prints_operand(k, out + to, *a, min, true, n);
            assert(out + to + ta =~= out + (to + ta));
        },
        _ => {},
    }
}

/// The printer writes the text of an expression.
proof fn prints(k: nat, out: Seq<char>, e: ExprV, n: usize)
    requires
        is_simple(e),
        depth(e) < k,
    ensures
        (shown(k).expr)(out, e, n) == out + tx(tidied(e), e.parens as nat),
    decreases e, 1nat, 0nat,
{
    let l = (k - 1) as nat;
    let g = shown(l);
    shown_rules(k);
    reveal(w_expr);
    let t = tidied(e);
    let p = e.parens as nat;
    let o1 = out + repeated('(', p);
    wrapped_text(t, p);
    match e.kind {
        ExprKindV::Name(x) => {
            reveal(w_expr_kind);
            reveal(w_name);
        },
        ExprKindV::Next(x) => {
            reveal(w_expr_kind);
            reveal_strlit("'");
            assert("'"@ =~= seq!['\'']);
            assert(w_expr_kind(o1, e.kind, n, g) =~= o1 + tx(t, 0));
        },
        ExprKindV::Numeral(x) => {
            reveal(w_expr_kind);
        },
        ExprKindV::Binary(..) => {
            prints_operation(l, o1, e, n);
        },
        ExprKindV::Unary(..) => {
            prints_operation(l, o1, e, n);
        },
        ExprKindV::ArraySelect(..) => {
            prints_selected(l, o1, e, n);
        },
        ExprKindV::RecordSelect(..) => {
            prints_selected(l, o1, e, n);
        },
        ExprKindV::App(..) => {
            prints_selected(l, o1, e, n);
        },
        _ => {
            prints_aggregate(l, o1, e, n);
        },
    }
    assert(w_expr_kind(o1, e.kind, n, g) == o1 + tx(t, 0));
    assert(w_expr(out, e, n, g) =~= out + tx(t, p));
}

proof fn tidied_again(e: ExprV)
    requires
        is_tidy(e),
    ensures
        is_simple(e),
        tidied(e) == e,
    decreases e, 0nat, 0nat,
{
    match e.kind {
        ExprKindV::Binary(o, a, b) => {
            tidied_again(*a);
            tidied_again(*b);
        },
        ExprKindV::Unary(o, a) => {
            tidied_again(*a);
        },
        ExprKindV::ArraySelect(a, b) => {
            tidied_again(*a);
            tidied_again(*b);
        },
        ExprKindV::RecordSelect(a, x) => {
            tidied_again(*a);
        },
        ExprKindV::App(a, v) => {
            tidied_again(*a);
            tidied_same(v, 0);
            assert(tidied_all(v) =~= v);
        },
        ExprKindV::SetList(v) => {
            tidied_same(v, 0);
            assert(tidied_all(v) =~= v);
        },
        ExprKindV::TupleLit(v) => {
            tidied_same(v, 0);
            assert(tidied_all(v) =~= v);
        },
        ExprKindV::Conditional { cond, then_, els, is_elsif } => {
            tidied_again(*cond);
            tidied_again(*then_);
            tidied_rest_again(*els);
        },
        _ => {},
    }
}

proof fn tidied_rest_again(e: ExprV)
    requires
        is_tidy_rest(e),
    ensures
        is_simple_rest(e),
        tidied(e) == e,
    decreases e, 1nat, 0nat,
{
    if is_branch(e) {
        match e.kind {
            ExprKindV::Conditional { cond, then_, els, is_elsif } => {
                tidied_again(*cond);
                tidied_again(*then_);
                tidied_rest_again(*els);
            },
            _ => {},
        }
    } else {
        tidied_again(e);
    }
}

proof fn tidied_same(v: Seq<ExprV>, i: int)
    requires
        0 <= i <= v.len(),
        are_tidy(v, i),
    ensures
        are_simple(v, i),
        forall|k: int| i <= k < v.len() ==> tidied(#[trigger] v[k]) == v[k],
    decreases v, 0nat, v.len() - i,
{
    if i < v.len() {
        tidied_again(v[i]);
        tidied_same(v, i + 1);
    }
}

proof fn alike_text(f: ExprV, e: ExprV, n: nat)
    requires
        is_tidy(e),
        same_kind(f.kind, e),
    ensures
        is_tidy(f),
        tx(f, n) == tx(e, n),
        binding(f.kind) == binding(e.kind),
        depth(f) == depth(e),
    decreases e, 0nat, n,
{
    reveal_with_fuel(is_tidy, 2);
    if n > 0 {
        alike_text(f, e, (n - 1) as nat);
    } else {
        match (f.kind, e.kind) {
            (ExprKindV::Binary(o, a, b), ExprKindV::Binary(_, c, d)) => {
                alike_text(*a, *c, c.parens as nat);
                alike_text(*b, *d, d.parens as nat);
            },
            (ExprKindV::Unary(o, a), ExprKindV::Unary(_, c)) => {
                alike_text(*a, *c, c.parens as nat);
            },
            (ExprKindV::ArraySelect(a, b), ExprKindV::ArraySelect(c, d)) => {
                alike_text(*a, *c, c.parens as nat);
                alike_text(*b, *d, d.parens as nat);
            },
            (ExprKindV::RecordSelect(a, _), ExprKindV::RecordSelect(c, _)) => {
                alike_text(*a, *c, c.parens as nat);
            },
            (ExprKindV::App(a, v), ExprKindV::App(c, w)) => {
                alike_text(*a, *c, c.parens as nat);
                alike_texts(v, w, 0);
            },
            (ExprKindV::SetList(v), ExprKindV::SetList(w)) => {
                alike_texts(v, w, 0);
            },
            (ExprKindV::TupleLit(v), ExprKindV::TupleLit(w)) => {
                alike_texts(v, w, 0);
            },
            (
                ExprKindV::Conditional { cond: a, then_: b, els: c, is_elsif: _ },
                ExprKindV::Conditional { cond: x, then_: y, els: z, is_elsif: _ },
            ) => {
                alike_text(*a, *x, x.parens as nat);
                alike_text(*b, *y, y.parens as nat);
                alike_rest(*c, *z);
            },
            _ => {},
        }
    }
}

proof fn alike_rest(f: ExprV, e: ExprV)
    requires
        is_tidy_rest(e),
        alike(f, e),
    ensures
        is_tidy_rest(f),
        tx_rest(f) == tx_rest(e),
        depth(f) == depth(e),
    decreases e, 1nat, 0nat,
{
    reveal_with_fuel(alike, 3);
    reveal_with_fuel(same_kind, 3);
    if is_branch(e) {
        match (f.kind, e.kind) {
            (
                ExprKindV::Conditional { cond: a, then_: b, els: c, is_elsif: _ },
                ExprKindV::Conditional { cond: x, then_: y, els: z, is_elsif: _ },
            ) => {
                alike_text(*a, *x, x.parens as nat);
                alike_text(*b, *y, y.parens as nat);
                alike_rest(*c, *z);
            },
            _ => {},
        }
    } else {
        alike_text(f, e, e.parens as nat);
    }
}

proof fn alike_texts(v: Seq<ExprV>, w: Seq<ExprV>, i: int)
    requires
        v.len() == w.len(),
        0 <= i <= v.len(),
        are_tidy(w, i),
        all_alike(v, w, i),
    ensures
        are_tidy(v, i),
        tx_list(v, i) == tx_list(w, i),
        depths(v, i) == depths(w, i),
    decreases w, 0nat, w.len() - i,
{
    reveal_with_fuel(all_alike, 2);
    reveal_with_fuel(alike, 2);
    reveal_with_fuel(same_kind, 2);
    reveal_with_fuel(tx_list, 2);
    if i < v.len() {
        assert(alike(v[i], w[i]));
        alike_text(v[i], w[i], w[i].parens as nat);
        alike_texts(v, w, i + 1);
    }
}

proof fn tidied_depth(e: ExprV)
    ensures
        depth(tidied(e)) == depth(e),
        depth(enclosed(tidied(e), true)) == depth(e),
    decreases e, 0nat, 0nat,
{
    match e.kind {
        ExprKindV::Binary(o, a, b) => {
            tidied_depth(*a);
            tidied_depth(*b);
        },
        ExprKindV::Unary(o, a) => {
            tidied_depth(*a);
        },
        ExprKindV::ArraySelect(a, b) => {
            tidied_depth(*a);
            tidied_depth(*b);
        },
        ExprKindV::RecordSelect(a, x) => {
            tidied_depth(*a);
        },
        ExprKindV::App(a, v) => {
            tidied_depth(*a);
            tidied_depths(v, 0);
        },
        ExprKindV::SetList(v) => {
            tidied_depths(v, 0);
        },
        ExprKindV::TupleLit(v) => {
            tidied_depths(v, 0);
        },
        ExprKindV::Conditional { cond, then_, els, is_elsif } => {
            tidied_depth(*cond);
            tidied_depth(*then_);
            tidied_depth(*els);
        },
        _ => {},
    }
}

proof fn tidied_depths(v: Seq<ExprV>, i: int)
    requires
        0 <= i <= v.len(),
    ensures
        depths(tidied_all(v), i) == depths(v, i),
    decreases v, 0nat, v.len() - i,
{
    if i < v.len() {
        tidied_depth(v[i]);
        tidied_depths(v, i + 1);
    }
}

/// The text of a simple expression (one of names, next values, numerals, operators, selections of elements and fields,
/// applications, sets, tuples and conditionals) is read back as that expression, up to its places, with parentheses
/// around the operands that need them; and what is read is printed as the same text again.
pub proof fn simple_read_back(e: ExprV)
    requires
        is_simple(e),
        depth(e) < usize::MAX,
    ensures
        expr_of(expr_text(e)) matches Ok(f) && alike(f, tidied(e)) && expr_text(f) == expr_text(e),
{
    let n = e.parens as nat;
    let t = tidied(e);
    let s = tx(t, n);
    reveal(expr_text);
    reveal_strlit("");
    tidied_tidy(e);
    prints(usize::MAX as nat, ""@, e, 0);
    assert(""@ + s =~= s);
    assert(expr_text(e) == s);
    assert(s.subrange(0, s.len() as int) =~= s);
    reads(s, 0, t, n);
    reveal(lexes);
    let j = s.len() as int;
    assert(skipped(s, j) == j);
    reveal_with_fuel(tokens, 2);
    let ts = tokens(s, 0)->Ok_0;
    let r = tokens(s, j)->Ok_0;
    let w = words(t, n).len() as int;
    assert(r.len() == 1 && r[0].tok == Tok::Eof);
    assert(ts[w] == ts.skip(w)[0]);
    let f = parses(ts, 0, 0, t, n);
    tail_stops(ts, w, start_at(ts, 0), 0, f, grammar(ts, 0));
    grammar_rules(ts, -1, 0);
    assert(whole((grammar(ts, -1).expr)(0, 0), ts) == Ok::<ExprV, crate::lexer::Fail>(f));
    alike_text(f, t, n);
    tidied_again(f);
    tidied_depth(e);
    prints(usize::MAX as nat, ""@, f, 0);
    assert(""@ + tx(f, n) =~= s);
}

} // verus!
