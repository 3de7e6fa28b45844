//! From tokens to syntax, by recursive descent.
//!
//! Operators bind, the strongest first: application and selection, unary minus, `* / DIV MOD`,
//! `+ -`, `WITH`, comparison, `NOT`, `AND`, `OR`, `XOR`, `=>`, `<=>`. All are left-associative but
//! `=>`.

use crate::ast::{
    access_models, actual_models, base_decl_models, constructor_models, ctx_param_models, decl_models,
    def_or_command_models, definition_models, expr_models, field_decl_models, ident_expr_pairs, ident_ident_pairs,
    ident_models, let_decl_models, lhs_lhs_pairs, new_var_decl_models, some_command_models, type_models,
    var_decl_models, Access, AccessV, Actual, ActualV, AssertionExpr, AssertionExprV, AssertionForm, BaseDecl,
    BaseDeclV, BaseModule, BaseModuleV, BinOp, Constructor, ConstructorV, ContextName, ContextNameV, CtxParam,
    CtxParamV, Decl, DeclV, DefOrCommand, DefOrCommandV, Definition, DefinitionV, Expr, ExprKind, ExprKindV, ExprV,
    FieldDecl, FieldDeclV, GuardedCommand, GuardedCommandV, Ident, IdentV, LetDecl, LetDeclV, Lhs, LhsV, Module,
    ModuleKind, ModuleKindV, ModuleV, Name, NameV, NewVarDecl, NewVarDeclV, Quantifier, Rhs, RhsV, SalContext,
    SalContextV, SetPred, SetPredV, SimpleDefinition, SimpleDefinitionV, SomeCommand, SomeCommandV, Type, TypeDef,
    TypeDefV, TypeKind, TypeKindV, TypeV, UnOp, VarClass, VarDecl, VarDeclV,
};
use crate::lexer::{digit, ended, sized, tokenize, tokens, Fail, LexError};
use crate::num::numeral_value;
use crate::span::{Pos, Span};
use crate::text::{own, put};
use crate::token::{token_models, Tok, Token, TokenV};
use vstd::prelude::*;

verus! {

/// Why a text cannot be parsed.
#[derive(Debug)]
pub struct ParseError {
    pub pos: Pos,
    pub msg: String,
}

impl ParseError {
    /// Its value.
    pub open spec fn model(&self) -> Fail {
        Fail { pos: self.pos, msg: self.msg@ }
    }

    /// The error of a text that has no tokens.
    pub fn from_lex(e: LexError) -> (r: ParseError)
        ensures
            r.model() == e.model(),
    {
        ParseError { pos: e.pos, msg: e.msg }
    }

    /// The error as a line of text.
    pub fn text(&self) -> (r: String)
        ensures
            r@ == "line("@ + crate::num::dec(self.pos.line as int) + "), column("@ + crate::num::dec(
                self.pos.col as int,
            ) + "): "@ + self.msg@,
    {
        let mut out = own("line(");
        put(&mut out, crate::num::Int::from_u64(self.pos.line as u64).text().as_str());
        put(&mut out, "), column(");
        put(&mut out, crate::num::Int::from_u64(self.pos.col as u64).text().as_str());
        put(&mut out, "): ");
        put(&mut out, self.msg.as_str());
        out
    }
}

/// What parsing a stretch of tokens gives: a value and the place behind it.
pub type PS<T> = Result<(T, int), Fail>;

/// What the rules refer to: the expressions whose operators bind at least as strongly as a given
/// strength, the types, the modules and the definitions at a place.
pub ghost struct Grammar {
    pub expr: spec_fn(int, u8) -> PS<ExprV>,
    pub ty: spec_fn(int) -> PS<TypeV>,
    pub module: spec_fn(int) -> PS<ModuleV>,
    pub def: spec_fn(int) -> PS<DefinitionV>,
}

/// The grammar behind the place `lo`.
#[verifier::opaque]
pub open spec fn grammar(ts: Seq<TokenV>, lo: int) -> Grammar
    decreases ts.len() - lo,
{
    Grammar {
        expr: |i: int, min: u8|
            if lo < i <= ts.len() {
                p_expr_bp(ts, i, min, grammar(ts, i))
            } else {
                Err(arbitrary())
            },
        ty: |i: int|
            if lo < i <= ts.len() {
                p_type_expr(ts, i, grammar(ts, i))
            } else {
                Err(arbitrary())
            },
        module: |i: int|
            if lo < i <= ts.len() {
                p_module(ts, i, grammar(ts, i))
            } else {
                Err(arbitrary())
            },
        def: |i: int|
            if lo < i <= ts.len() {
                p_definition(ts, i, grammar(ts, i))
            } else {
                Err(arbitrary())
            },
    }
}

/// The grammar behind a place goes by the rules.
pub proof fn grammar_rules(ts: Seq<TokenV>, lo: int, i: int)
    requires
        lo < i <= ts.len(),
    ensures
        forall|min: u8| #[trigger] (grammar(ts, lo).expr)(i, min) == p_expr_bp(ts, i, min, grammar(ts, i)),
        (grammar(ts, lo).ty)(i) == p_type_expr(ts, i, grammar(ts, i)),
        (grammar(ts, lo).module)(i) == p_module(ts, i, grammar(ts, i)),
        (grammar(ts, lo).def)(i) == p_definition(ts, i, grammar(ts, i)),
{
    reveal_with_fuel(grammar, 1);
}

/// A result that lies behind `i`.
pub open spec fn ahead<T>(r: PS<T>, i: int, n: int) -> PS<T> {
    match r {
        Ok((x, k)) => if i < k <= n {
            Ok((x, k))
        } else {
            Err(arbitrary())
        },
        Err(e) => Err(e),
    }
}

/// A result that lies at `i` or behind it.
pub open spec fn onward<T>(r: PS<T>, i: int, n: int) -> PS<T> {
    match r {
        Ok((x, k)) => if i <= k <= n {
            Ok((x, k))
        } else {
            Err(arbitrary())
        },
        Err(e) => Err(e),
    }
}

/// The kind of a token; behind the last there are only ends.
pub open spec fn tok_at(ts: Seq<TokenV>, i: int) -> Tok {
    if 0 <= i < ts.len() {
        ts[i].tok
    } else {
        Tok::Eof
    }
}

/// Where a token starts.
pub open spec fn start_at(ts: Seq<TokenV>, i: int) -> Pos {
    ts[i].span.start
}

/// The text of a token.
pub open spec fn text_at(ts: Seq<TokenV>, i: int) -> Seq<char> {
    ts[i].text
}

/// The stretch from a place to the end of the token before `i`.
pub open spec fn span_from(ts: Seq<TokenV>, i: int, start: Pos) -> Span {
    Span {
        start,
        end: if i > 0 {
            ts[i - 1].span.end
        } else {
            start
        },
    }
}

/// Another token was expected.
pub open spec fn expected(ts: Seq<TokenV>, i: int, what: Seq<char>) -> Fail {
    Fail { pos: start_at(ts, i), msg: "expected "@ + what + ", found \""@ + text_at(ts, i) + "\""@ }
}

/// An expression without parentheses around it.
pub open spec fn expr_at(kind: ExprKindV, span: Span) -> ExprV {
    ExprV { kind, span, parens: 0 }
}

/// An expression in parentheses.
pub open spec fn wrapped_at(e: ExprV, span: Span) -> ExprV {
    ExprV { kind: e.kind, span, parens: (e.parens + 1) as u32 }
}

/// A type.
pub open spec fn type_at(kind: TypeKindV, span: Span) -> TypeV {
    TypeV { kind, span }
}

/// A module without parentheses around it.
pub open spec fn module_at(kind: ModuleKindV, span: Span) -> ModuleV {
    ModuleV { kind, span, parens: 0 }
}

/// A module in parentheses.
pub open spec fn enclosed_at(m: ModuleV, span: Span) -> ModuleV {
    ModuleV { kind: m.kind, span, parens: (m.parens + 1) as u32 }
}

fn mk_expr(kind: ExprKind, span: Span) -> (r: Expr)
    ensures
        r.model() == expr_at(kind.model(), span),
        r.parens == 0,
{
    Expr { kind, span, parens: 0 }
}

fn mk_wrapped(e: Expr, span: Span) -> (r: Expr)
    requires
        e.parens < u32::MAX,
    ensures
        r.model() == wrapped_at(e.model(), span),
        r.parens == e.parens + 1,
{
    Expr { kind: e.kind, span, parens: e.parens + 1 }
}

fn mk_type(kind: TypeKind, span: Span) -> (r: Type)
    ensures
        r.model() == type_at(kind.model(), span),
{
    Type { kind, span }
}

fn mk_module(kind: ModuleKind, span: Span) -> (r: Module)
    ensures
        r.model() == module_at(kind.model(), span),
        r.parens == 0,
{
    Module { kind, span, parens: 0 }
}

fn mk_enclosed(m: Module, span: Span) -> (r: Module)
    requires
        m.parens < u32::MAX,
    ensures
        r.model() == enclosed_at(m.model(), span),
        r.parens == m.parens + 1,
{
    Module { kind: m.kind, span, parens: m.parens + 1 }
}

/// The value of an optional identifier.
pub open spec fn opt_ident(x: Option<Ident>) -> Option<IdentV> {
    match x {
        Some(v) => Some(v.model()),
        None => None,
    }
}

/// The value of an optional expression.
pub open spec fn opt_expr(x: Option<Expr>) -> Option<ExprV> {
    match x {
        Some(v) => Some(v.model()),
        None => None,
    }
}

pub const BP_MULT: u8 = 80;

pub const BP_ADD: u8 = 70;

pub const BP_WITH: u8 = 60;

pub const BP_COMPARE: u8 = 55;

pub const BP_NOT: u8 = 50;

pub const BP_AND: u8 = 45;

pub const BP_OR: u8 = 40;

pub const BP_XOR: u8 = 35;

pub const BP_IMPLIES: u8 = 30;

pub const BP_IFF: u8 = 25;

/// The binary operator of a token, how strongly it binds, and whether it is right-associative.
pub open spec fn binop_of(tok: Tok) -> Option<(BinOp, u8, bool)> {
    match tok {
        Tok::Mult => Some((BinOp::Mult, BP_MULT, false)),
        Tok::Div => Some((BinOp::Div, BP_MULT, false)),
        Tok::IDiv => Some((BinOp::IDiv, BP_MULT, false)),
        Tok::Mod => Some((BinOp::Mod, BP_MULT, false)),
        Tok::Plus => Some((BinOp::Plus, BP_ADD, false)),
        Tok::Minus => Some((BinOp::Minus, BP_ADD, false)),
        Tok::Eq => Some((BinOp::Eq, BP_COMPARE, false)),
        Tok::Neq => Some((BinOp::Neq, BP_COMPARE, false)),
        Tok::Lt => Some((BinOp::Lt, BP_COMPARE, false)),
        Tok::Le => Some((BinOp::Le, BP_COMPARE, false)),
        Tok::Gt => Some((BinOp::Gt, BP_COMPARE, false)),
        Tok::Ge => Some((BinOp::Ge, BP_COMPARE, false)),
        Tok::And => Some((BinOp::And, BP_AND, false)),
        Tok::Or => Some((BinOp::Or, BP_OR, false)),
        Tok::Xor => Some((BinOp::Xor, BP_XOR, false)),
        Tok::Implies => Some((BinOp::Implies, BP_IMPLIES, true)),
        Tok::Iff => Some((BinOp::Iff, BP_IFF, false)),
        _ => None,
    }
}

fn find_binop(tok: Tok) -> (r: Option<(BinOp, u8, bool)>)
    ensures
        r == binop_of(tok),
        r matches Some((_, bp, _)) ==> bp <= 80,
{
    match tok {
        Tok::Mult => Some((BinOp::Mult, BP_MULT, false)),
        Tok::Div => Some((BinOp::Div, BP_MULT, false)),
        Tok::IDiv => Some((BinOp::IDiv, BP_MULT, false)),
        Tok::Mod => Some((BinOp::Mod, BP_MULT, false)),
        Tok::Plus => Some((BinOp::Plus, BP_ADD, false)),
        Tok::Minus => Some((BinOp::Minus, BP_ADD, false)),
        Tok::Eq => Some((BinOp::Eq, BP_COMPARE, false)),
        Tok::Neq => Some((BinOp::Neq, BP_COMPARE, false)),
        Tok::Lt => Some((BinOp::Lt, BP_COMPARE, false)),
        Tok::Le => Some((BinOp::Le, BP_COMPARE, false)),
        Tok::Gt => Some((BinOp::Gt, BP_COMPARE, false)),
        Tok::Ge => Some((BinOp::Ge, BP_COMPARE, false)),
        Tok::And => Some((BinOp::And, BP_AND, false)),
        Tok::Or => Some((BinOp::Or, BP_OR, false)),
        Tok::Xor => Some((BinOp::Xor, BP_XOR, false)),
        Tok::Implies => Some((BinOp::Implies, BP_IMPLIES, true)),
        Tok::Iff => Some((BinOp::Iff, BP_IFF, false)),
        _ => None,
    }
}

/// The number that a tuple selection names.
pub open spec fn tuple_index(s: Seq<char>) -> Option<u32> {
    if s.len() > 0 && (forall|i: int| 0 <= i < s.len() ==> digit(#[trigger] s[i])) && numeral_value(s, 10)
        <= u32::MAX {
        Some(numeral_value(s, 10) as u32)
    } else {
        None
    }
}

proof fn numeral_grows(s: Seq<char>, k: int)
    requires
        0 <= k <= s.len(),
        forall|i: int| 0 <= i < s.len() ==> digit(#[trigger] s[i]),
    ensures
        numeral_value(s.take(k), 10) <= numeral_value(s, 10),
    decreases s.len(),
{
    if k == s.len() {
        assert(s.take(k) =~= s);
    } else {
        let t = s.drop_last();
        assert forall|i: int| 0 <= i < t.len() implies digit(#[trigger] t[i]) by {
            assert(t[i] == s[i]);
        }
        numeral_grows(t, k);
        assert(t.take(k) =~= s.take(k));
        assert(digit(s[s.len() - 1]));
        assert(s.last() != '_');
    }
}

fn decimal_u32(s: &String) -> (r: Option<u32>)
    ensures
        r == tuple_index(s@),
{
    use_str(s.as_str())
}

fn use_str(s: &str) -> (r: Option<u32>)
    ensures
        r == tuple_index(s@),
{
    let cs = crate::lexer::characters(s);
    if cs.len() == 0 {
        return None;
    }
    let mut n: u64 = 0;
    let mut big: bool = false;
    let mut i: usize = 0;
    while i < cs.len()
        invariant
            i <= cs@.len(),
            cs@ == s@,
            forall|j: int| 0 <= j < i ==> digit(#[trigger] s@[j]),
            n <= u32::MAX,
            big ==> numeral_value(s@.take(i as int), 10) > u32::MAX,
            !big ==> numeral_value(s@.take(i as int), 10) == n,
        decreases cs.len() - i,
    {
        let c = cs[i];
        if !('0' <= c && c <= '9') {
            assert(!digit(s@[i as int]));
            return None;
        }
        let ghost t = s@.take(i + 1);
        proof {
            assert(t.drop_last() =~= s@.take(i as int));
            assert(t.last() == c);
        }
        if !big {
            n = n * 10 + (c as u32 - 48) as u64;
            if n > 0xffff_ffff {
                big = true;
                n = 0;
            }
        }
        i += 1;
    }
    assert(s@.take(i as int) =~= s@);
    if big {
        None
    } else {
        Some(n as u32)
    }
}

/// A one with zeros behind it.
pub open spec fn power_text(n: nat) -> Seq<char> {
    "1"@ + Seq::new(n, |i: int| '0')
}

fn power_of_ten(s: &String) -> (r: String)
    ensures
        r@ == power_text(s@.len()),
{
    let cs = crate::lexer::characters(s.as_str());
    let mut out = own("1");
    let mut i: usize = 0;
    while i < cs.len()
        invariant
            i <= cs@.len(),
            out@ == power_text(i as nat),
        decreases cs.len() - i,
    {
        out.push('0');
        i += 1;
        assert(out@ =~= power_text(i as nat));
    }
    out
}

fn joined_text(a: &String, b: &String) -> (r: String)
    ensures
        r@ == a@ + b@,
{
    let mut out = own(a.as_str());
    put(&mut out, b.as_str());
    out
}

fn only_type(v: Vec<Type>) -> (r: Type)
    requires
        v@.len() == 1,
    ensures
        r == v@[0],
{
    let mut v = v;
    match v.pop() {
        Some(x) => x,
        None => {
            assert(false);
            mk_type(TypeKind::Tuple(Vec::new()), Span::dummy())
        },
    }
}

fn only_decl(v: Vec<VarDecl>) -> (r: VarDecl)
    requires
        v@.len() == 1,
    ensures
        r == v@[0],
{
    let mut v = v;
    v.swap_remove(0)
}

/// After the brace at `i` the matching one is followed by `!`.
pub open spec fn closes(ts: Seq<TokenV>, i: int, depth: nat) -> bool
    decreases ts.len() - i,
{
    if i < 0 || i >= ts.len() {
        false
    } else if ts[i].tok == Tok::LBrace {
        closes(ts, i + 1, depth + 1)
    } else if ts[i].tok == Tok::RBrace {
        if depth <= 1 {
            tok_at(ts, i + 1) == Tok::Bang
        } else {
            closes(ts, i + 1, (depth - 1) as nat)
        }
    } else {
        closes(ts, i + 1, depth)
    }
}

/// The command is an `ELSE` command.
pub open spec fn is_else(c: SomeCommandV) -> bool {
    c matches SomeCommandV::Guarded(g) && g.guard is None
}

fn is_else_command(c: &SomeCommand) -> (r: bool)
    ensures
        r == is_else(c.model()),
{
    match c {
        SomeCommand::Guarded(g) => {
            let ghost gm = g.model();
            g.guard.is_none()
        },
        SomeCommand::Multi(_, _, _) => false,
    }
}

/// Where the first `ELSE` command from `k` on is, if it is not the last command.
pub open spec fn early_else(cmds: Seq<SomeCommandV>, k: int) -> Option<Pos>
    decreases cmds.len() - k,
{
    if k < 0 || k >= cmds.len() - 1 {
        None
    } else {
        match cmds[k] {
            SomeCommandV::Guarded(g) => if g.guard is None {
                Some(g.span.start)
            } else {
                early_else(cmds, k + 1)
            },
            SomeCommandV::Multi(_, _, _) => early_else(cmds, k + 1),
        }
    }
}

fn find_early_else(cmds: &Vec<SomeCommand>) -> (r: Option<Pos>)
    ensures
        r == early_else(some_command_models(cmds@), 0),
{
    let ghost ms = some_command_models(cmds@);
    let mut k: usize = 0;
    while k < cmds.len() && k < cmds.len() - 1
        invariant
            k <= cmds@.len(),
            ms == some_command_models(cmds@),
            early_else(ms, k as int) == early_else(ms, 0),
        decreases cmds.len() - k,
    {
        let c = &cmds[k];
        proof {
            assert(ms[k as int] == c.model());
        }
        match c {
            SomeCommand::Guarded(g) => {
                let ghost gm = g.model();
                if g.guard.is_none() {
                    return Some(g.span.start);
                }
            },
            SomeCommand::Multi(_, _, _) => {},
        }
        k += 1;
    }
    None
}

/// A reader of tokens.
pub struct Parser {
    toks: Vec<Token>,
    pos: usize,
}

impl Parser {
    /// The tokens end properly, and the reader is at one of them.
    pub closed spec fn wf(&self) -> bool {
        &&& ended(token_models(self.toks@))
        &&& self.pos < self.toks@.len() <= u32::MAX
    }

    /// The tokens.
    pub closed spec fn ts(&self) -> Seq<TokenV> {
        token_models(self.toks@)
    }

    /// Where the reader is.
    pub closed spec fn place(&self) -> int {
        self.pos as int
    }

    /// A reader of the tokens of a text.
    pub fn new(src: &str) -> (r: Result<Parser, ParseError>)
        requires
            sized(src@),
        ensures
            match r {
                Ok(p) => p.wf() && tokens(src@, 0) == Ok::<Seq<TokenV>, Fail>(p.ts()) && p.place() == 0,
                Err(e) => tokens(src@, 0) == Err::<Seq<TokenV>, Fail>(e.model()),
            },
    {
        match tokenize(src) {
            Ok(toks) => {
                proof {
                    crate::lexer::size_bound(src@);
                }
                Ok(Parser { toks, pos: 0 })
            },
            Err(e) => Err(ParseError::from_lex(e)),
        }
    }

    fn cur(&self) -> (r: Tok)
        requires
            self.wf(),
        ensures
            r == tok_at(self.ts(), self.pos as int),
            self.pos == self.toks@.len() - 1 ==> r == Tok::Eof,
    {
        self.toks[self.pos].tok
    }

    fn look(&self, k: usize) -> (r: Tok)
        requires
            self.wf(),
            k <= 2,
        ensures
            r == tok_at(self.ts(), self.pos + k),
    {
        if k < self.toks.len() - self.pos {
            self.toks[self.pos + k].tok
        } else {
            Tok::Eof
        }
    }

    fn start(&self) -> (r: Pos)
        requires
            self.wf(),
        ensures
            r == start_at(self.ts(), self.pos as int),
    {
        self.toks[self.pos].span.start
    }

    fn bump(&mut self)
        requires
            old(self).wf(),
            tok_at(old(self).ts(), old(self).pos as int) != Tok::Eof,
        ensures
            final(self).wf(),
            final(self).toks == old(self).toks,
            final(self).pos == old(self).pos + 1,
    {
        proof {
            if self.pos == self.toks@.len() - 1 {
                assert(self.ts().last().tok == Tok::Eof);
            }
        }
        self.pos += 1;
    }

    fn take(&mut self) -> (r: Token)
        requires
            old(self).wf(),
            tok_at(old(self).ts(), old(self).pos as int) != Tok::Eof,
        ensures
            final(self).wf(),
            final(self).toks == old(self).toks,
            final(self).pos == old(self).pos + 1,
            r.model() == old(self).ts()[old(self).pos as int],
    {
        let t = &self.toks[self.pos];
        let r = Token { tok: t.tok, text: own(t.text.as_str()), span: t.span };
        self.bump();
        r
    }

    fn error(&self, msg: &str) -> (r: ParseError)
        requires
            self.wf(),
        ensures
            r.model() == (Fail { pos: start_at(self.ts(), self.pos as int), msg: msg@ }),
    {
        ParseError { pos: self.start(), msg: own(msg) }
    }

    fn unexpected(&self, before: &str, after: &str) -> (r: ParseError)
        requires
            self.wf(),
        ensures
            r.model() == (Fail {
                pos: start_at(self.ts(), self.pos as int),
                msg: before@ + text_at(self.ts(), self.pos as int) + after@,
            }),
    {
        let mut msg = own(before);
        put(&mut msg, self.toks[self.pos].text.as_str());
        put(&mut msg, after);
        ParseError { pos: self.start(), msg }
    }

    fn expected(&self, what: &str) -> (r: ParseError)
        requires
            self.wf(),
        ensures
            r.model() == expected(self.ts(), self.pos as int, what@),
    {
        let mut msg = own("expected ");
        put(&mut msg, what);
        put(&mut msg, ", found \"");
        put(&mut msg, self.toks[self.pos].text.as_str());
        put(&mut msg, "\"");
        ParseError { pos: self.start(), msg }
    }

    fn span_from(&self, start: Pos) -> (r: Span)
        requires
            self.wf(),
        ensures
            r == span_from(self.ts(), self.pos as int, start),
    {
        let end = if self.pos > 0 {
            self.toks[self.pos - 1].span.end
        } else {
            start
        };
        Span::new(start, end)
    }

    fn qualified_name_follows(&self) -> (r: bool)
        requires
            self.wf(),
        ensures
            r == closes(self.ts(), self.pos as int, 0),
    {
        let mut depth: usize = 0;
        let mut k: usize = self.pos;
        while k < self.toks.len()
            invariant
                self.wf(),
                self.pos <= k <= self.toks@.len(),
                depth <= k - self.pos,
                closes(self.ts(), k as int, depth as nat) == closes(self.ts(), self.pos as int, 0),
            decreases self.toks.len() - k,
        {
            let t = self.toks[k].tok;
            assert(self.ts()[k as int].tok == t);
            if t == Tok::LBrace {
                depth += 1;
            } else if t == Tok::RBrace {
                if depth <= 1 {
                    return k + 1 < self.toks.len() && self.toks[k + 1].tok == Tok::Bang;
                }
                depth -= 1;
            }
            k += 1;
        }
        false
    }
}

/// An identifier.
#[verifier::opaque]
pub open spec fn p_ident(ts: Seq<TokenV>, i: int, g: Grammar) -> PS<IdentV>
{
    if tok_at(ts, i) != Tok::Identifier {
        Err(expected(ts, i, "an identifier"@))
    } else {
        let t = ts[i];
        let i = i + 1;
        Ok((IdentV { name: t.text, span: t.span }, i))
    }
}

/// Identifiers with commas between them.
#[verifier::opaque]
pub open spec fn p_ident_list(ts: Seq<TokenV>, i: int, acc: Seq<IdentV>, g: Grammar) -> PS<Seq<IdentV>>
    decreases ts.len() - i,
{
    match ahead(p_ident(ts, i, g), i, ts.len() as int) {
        Err(e) => Err(e),
        Ok((x, i)) => {
            let acc = acc.push(x);
            if tok_at(ts, i) == Tok::Comma {
                let i = i + 1;
                p_ident_list(ts, i, acc, g)
            } else {
                Ok((acc, i))
            }
        },
    }
}

/// A name, possibly of another context.
#[verifier::opaque]
pub open spec fn p_name(ts: Seq<TokenV>, i: int, g: Grammar) -> PS<NameV>
{
    let start = start_at(ts, i);
    match ahead(p_ident(ts, i, g), i, ts.len() as int) {
        Err(e) => Err(e),
        Ok((first, i)) => {
            if tok_at(ts, i) == Tok::LBrace && closes(ts, i, 0) {
                let i = i + 1;
                let none = Seq::<ActualV>::empty();
                match onward(p_actuals(ts, i, none, g), i, ts.len() as int) {
                    Err(e) => Err(e),
                    Ok((actuals, i)) => {
                        if tok_at(ts, i) != Tok::RBrace {
                            Err(expected(ts, i, "`}'"@))
                        } else {
                            let i = i + 1;
                            let ctx_span = span_from(ts, i, start);
                            if tok_at(ts, i) != Tok::Bang {
                                Err(expected(ts, i, "`!'"@))
                            } else {
                                let i = i + 1;
                                match ahead(p_ident(ts, i, g), i, ts.len() as int) {
                                    Err(e) => Err(e),
                                    Ok((id, i)) => {
                                        let ctx = ContextNameV { name: first, actuals, span: ctx_span };
                                        Ok((NameV { ctx: Some(ctx), id, span: span_from(ts, i, start) }, i))
                                    },
                                }
                            }
                        }
                    },
                }
            } else {
                if tok_at(ts, i) == Tok::Bang {
                    let i = i + 1;
                    match ahead(p_ident(ts, i, g), i, ts.len() as int) {
                        Err(e) => Err(e),
                        Ok((id, i)) => {
                            let none = Seq::<ActualV>::empty();
                            let first_span = first.span;
                            let ctx = ContextNameV { name: first, actuals: none, span: first_span };
                            Ok((NameV { ctx: Some(ctx), id, span: span_from(ts, i, start) }, i))
                        },
                    }
                } else {
                    let first_span = first.span;
                    Ok((NameV { ctx: None, id: first, span: first_span }, i))
                }
            }
        },
    }
}

/// The actual parameters of a context: `[;] [actual {(,|;) actual}] [;]`.
#[verifier::opaque]
pub open spec fn p_actuals(ts: Seq<TokenV>, i: int, none: Seq<ActualV>, g: Grammar) -> PS<Seq<ActualV>>
{
    if tok_at(ts, i) == Tok::Semi {
        let i = i + 1;
        p_actuals_body(ts, i, none, g)
    } else {
        p_actuals_body(ts, i, none, g)
    }
}

/// The actual parameters after an optional semicolon; of none, with an optional semicolon again.
#[verifier::opaque]
pub open spec fn p_actuals_body(ts: Seq<TokenV>, i: int, none: Seq<ActualV>, g: Grammar) -> PS<Seq<ActualV>>
{
    if tok_at(ts, i) == Tok::RBrace {
        Ok((none, i))
    } else if tok_at(ts, i) == Tok::Semi && tok_at(ts, i + 1) == Tok::RBrace {
        Ok((none, i + 1))
    } else {
        p_actual_list(ts, i, none, g)
    }
}

/// Actual parameters, at least one.
#[verifier::opaque]
pub open spec fn p_actual_list(ts: Seq<TokenV>, i: int, acc: Seq<ActualV>, g: Grammar) -> PS<Seq<ActualV>>
    decreases ts.len() - i,
{
    match ahead(p_actual(ts, i, g), i, ts.len() as int) {
        Err(e) => Err(e),
        Ok((x, i)) => {
            let acc = acc.push(x);
            if tok_at(ts, i) == Tok::Comma {
                let i = i + 1;
                p_actual_list(ts, i, acc, g)
            } else {
                if tok_at(ts, i) == Tok::Semi {
                    let i = i + 1;
                    if tok_at(ts, i) == Tok::RBrace {
                        Ok((acc, i))
                    } else {
                        p_actual_list(ts, i, acc, g)
                    }
                } else {
                    Ok((acc, i))
                }
            }
        },
    }
}

/// An actual parameter: a composite type where there is one, otherwise an expression.
#[verifier::opaque]
pub open spec fn p_actual(ts: Seq<TokenV>, i: int, g: Grammar) -> PS<ActualV>
{
    if (tok_at(ts, i) == Tok::LBrack || tok_at(ts, i) == Tok::RecTypeS
        || tok_at(ts, i) == Tok::Array || tok_at(ts, i) == Tok::StateType) {
        match ahead((g.ty)(i), i, ts.len() as int) {
            Ok((t, j)) => {
                let p = i;
                let i = j;
                Ok((ActualV::Type(t), i))
            },
            Err(_) => {
                match ahead((g.expr)(i, 0), i, ts.len() as int) {
                    Err(e) => Err(e),
                    Ok((e, i)) => {
                        Ok((ActualV::Expr(e), i))
                    },
                }
            },
        }
    } else {
        match ahead((g.expr)(i, 0), i, ts.len() as int) {
            Err(e) => Err(e),
            Ok((e, i)) => {
                Ok((ActualV::Expr(e), i))
            },
        }
    }
}

/// A type.
#[verifier::opaque]
pub open spec fn p_type_expr(ts: Seq<TokenV>, i: int, g: Grammar) -> PS<TypeV>
    decreases ts.len() - i,
{
    let start = start_at(ts, i);
    if tok_at(ts, i) == Tok::Identifier {
        match ahead(p_name(ts, i, g), i, ts.len() as int) {
            Err(e) => Err(e),
            Ok((name, i)) => {
                let span = name.span;
                Ok((type_at(TypeKindV::Name(name), span), i))
            },
        }
    } else {
        if tok_at(ts, i) == Tok::LBrace {
            let i = i + 1;
            match ahead(p_ident(ts, i, g), i, ts.len() as int) {
                Err(e) => Err(e),
                Ok((var, i)) => {
                    if tok_at(ts, i) != Tok::Colon {
                        Err(expected(ts, i, "`:'"@))
                    } else {
                        let i = i + 1;
                        match ahead((g.ty)(i), i, ts.len() as int) {
                            Err(e) => Err(e),
                            Ok((ty, i)) => {
                                if tok_at(ts, i) != Tok::VBar {
                                    Err(expected(ts, i, "`|'"@))
                                } else {
                                    let i = i + 1;
                                    match ahead((g.expr)(i, 0), i, ts.len() as int) {
                                        Err(e) => Err(e),
                                        Ok((pred, i)) => {
                                            if tok_at(ts, i) != Tok::RBrace {
                                                Err(expected(ts, i, "`}'"@))
                                            } else {
                                                let i = i + 1;
                                                let span = span_from(ts, i, start);
                                                let sp = SetPredV { var, ty, pred, span };
                                                Ok((type_at(TypeKindV::Subtype(Box::new(sp)), span), i))
                                            }
                                        },
                                    }
                                }
                            },
                        }
                    }
                },
            }
        } else {
            p_comp_type_expr(ts, i, g)
        }
    }
}

/// A composite type.
#[verifier::opaque]
pub open spec fn p_comp_type_expr(ts: Seq<TokenV>, i: int, g: Grammar) -> PS<TypeV>
{
    let start = start_at(ts, i);
    if tok_at(ts, i) == Tok::LBrack {
        let i = i + 1;
        match ahead((g.expr)(i, 0), i, ts.len() as int) {
            Ok((low, j)) => {
                let p = i;
                let i = j;
                if tok_at(ts, i) == Tok::DotDot {
                    let i = i + 1;
                    match ahead((g.expr)(i, 0), i, ts.len() as int) {
                        Err(e) => Err(e),
                        Ok((hi, i)) => {
                            if tok_at(ts, i) != Tok::RBrack {
                                Err(expected(ts, i, "`]'"@))
                            } else {
                                let i = i + 1;
                                Ok((type_at(TypeKindV::Subrange(Box::new(low), Box::new(hi)), span_from(ts, i, start)), i))
                            }
                        },
                    }
                } else {
                    let i = p;
                    p_bracket_type(ts, i, start, g)
                }
            },
            Err(_) => {
                p_bracket_type(ts, i, start, g)
            },
        }
    } else {
        if tok_at(ts, i) == Tok::Array {
            let i = i + 1;
            match ahead((g.ty)(i), i, ts.len() as int) {
                Err(e) => Err(e),
                Ok((idx, i)) => {
                    if tok_at(ts, i) != Tok::Of {
                        Err(expected(ts, i, "OF"@))
                    } else {
                        let i = i + 1;
                        match ahead((g.ty)(i), i, ts.len() as int) {
                            Err(e) => Err(e),
                            Ok((elem, i)) => {
                                Ok((type_at(TypeKindV::Array(Box::new(idx), Box::new(elem)), span_from(ts, i, start)), i))
                            },
                        }
                    }
                },
            }
        } else {
            if tok_at(ts, i) == Tok::RecTypeS {
                let i = i + 1;
                let none = Seq::<FieldDeclV>::empty();
                match ahead(p_field_list(ts, i, none, g), i, ts.len() as int) {
                    Err(e) => Err(e),
                    Ok((fields, i)) => {
                        if tok_at(ts, i) != Tok::RecTypeE {
                            Err(expected(ts, i, "`#]'"@))
                        } else {
                            let i = i + 1;
                            Ok((type_at(TypeKindV::Record(fields), span_from(ts, i, start)), i))
                        }
                    },
                }
            } else {
                if tok_at(ts, i) == Tok::StateType {
                    let i = i + 1;
                    if tok_at(ts, i) != Tok::LParen {
                        Err(expected(ts, i, "`('"@))
                    } else {
                        let i = i + 1;
                        match ahead((g.module)(i), i, ts.len() as int) {
                            Err(e) => Err(e),
                            Ok((m, i)) => {
                                if tok_at(ts, i) != Tok::RParen {
                                    Err(expected(ts, i, "`)'"@))
                                } else {
                                    let i = i + 1;
                                    Ok((type_at(TypeKindV::State(Box::new(m)), span_from(ts, i, start)), i))
                                }
                            },
                        }
                    }
                } else {
                    Err(Fail { pos: start_at(ts, i), msg: "Type expected, found \""@ + text_at(ts, i) + "\"."@ })
                }
            }
        }
    }
}

/// A tuple or function type after its bracket.
#[verifier::opaque]
pub open spec fn p_bracket_type(ts: Seq<TokenV>, i: int, start: Pos, g: Grammar) -> PS<TypeV>
{
    let none = Seq::<TypeV>::empty();
    match ahead(p_type_list(ts, i, none, g), i, ts.len() as int) {
        Err(e) => Err(e),
        Ok((tys, i)) => {
            if tok_at(ts, i) == Tok::Arrow {
                let i = i + 1;
                if tys.len() != 1 {
                    Err(Fail { pos: start_at(ts, i), msg: "Invalid function type, only unary functions are supported in SAL. Use a tuple argument if you desire to provide more than one argument."@ })
                } else {
                    let dom = tys[0];
                    match ahead((g.ty)(i), i, ts.len() as int) {
                        Err(e) => Err(e),
                        Ok((rng, i)) => {
                            if tok_at(ts, i) != Tok::RBrack {
                                Err(expected(ts, i, "`]'"@))
                            } else {
                                let i = i + 1;
                                Ok((type_at(TypeKindV::Function(Box::new(dom), Box::new(rng)), span_from(ts, i, start)), i))
                            }
                        },
                    }
                }
            } else {
                if tok_at(ts, i) != Tok::RBrack {
                    Err(expected(ts, i, "`]'"@))
                } else {
                    let i = i + 1;
                    Ok((type_at(TypeKindV::Tuple(tys), span_from(ts, i, start)), i))
                }
            }
        },
    }
}

/// Types with commas between them.
#[verifier::opaque]
pub open spec fn p_type_list(ts: Seq<TokenV>, i: int, acc: Seq<TypeV>, g: Grammar) -> PS<Seq<TypeV>>
    decreases ts.len() - i,
{
    match ahead((g.ty)(i), i, ts.len() as int) {
        Err(e) => Err(e),
        Ok((x, i)) => {
            let acc = acc.push(x);
            if tok_at(ts, i) == Tok::Comma {
                let i = i + 1;
                p_type_list(ts, i, acc, g)
            } else {
                Ok((acc, i))
            }
        },
    }
}

/// A field of a record type.
#[verifier::opaque]
pub open spec fn p_field_decl(ts: Seq<TokenV>, i: int, g: Grammar) -> PS<FieldDeclV>
{
    match ahead(p_ident(ts, i, g), i, ts.len() as int) {
        Err(e) => Err(e),
        Ok((name, i)) => {
            if tok_at(ts, i) != Tok::Colon {
                Err(expected(ts, i, "`:'"@))
            } else {
                let i = i + 1;
                match ahead((g.ty)(i), i, ts.len() as int) {
                    Err(e) => Err(e),
                    Ok((ty, i)) => {
                        Ok((FieldDeclV { name, ty }, i))
                    },
                }
            }
        },
    }
}

/// Fields with commas between them.
#[verifier::opaque]
pub open spec fn p_field_list(ts: Seq<TokenV>, i: int, acc: Seq<FieldDeclV>, g: Grammar) -> PS<Seq<FieldDeclV>>
    decreases ts.len() - i,
{
    match ahead(p_field_decl(ts, i, g), i, ts.len() as int) {
        Err(e) => Err(e),
        Ok((x, i)) => {
            let acc = acc.push(x);
            if tok_at(ts, i) == Tok::Comma {
                let i = i + 1;
                p_field_list(ts, i, acc, g)
            } else {
                Ok((acc, i))
            }
        },
    }
}

/// `x, y : T`
#[verifier::opaque]
pub open spec fn p_var_decl(ts: Seq<TokenV>, i: int, g: Grammar) -> PS<VarDeclV>
{
    let start = start_at(ts, i);
    let none = Seq::<IdentV>::empty();
    match ahead(p_ident_list(ts, i, none, g), i, ts.len() as int) {
        Err(e) => Err(e),
        Ok((names, i)) => {
            if tok_at(ts, i) != Tok::Colon {
                Err(expected(ts, i, "`:'"@))
            } else {
                let i = i + 1;
                match ahead((g.ty)(i), i, ts.len() as int) {
                    Err(e) => Err(e),
                    Ok((ty, i)) => {
                        Ok((VarDeclV { names, ty, span: span_from(ts, i, start) }, i))
                    },
                }
            }
        },
    }
}

/// Variable declarations with commas between them.
#[verifier::opaque]
pub open spec fn p_var_decl_plus(ts: Seq<TokenV>, i: int, acc: Seq<VarDeclV>, g: Grammar) -> PS<Seq<VarDeclV>>
    decreases ts.len() - i,
{
    match ahead(p_var_decl(ts, i, g), i, ts.len() as int) {
        Err(e) => Err(e),
        Ok((x, i)) => {
            let acc = acc.push(x);
            if tok_at(ts, i) == Tok::Comma {
                let i = i + 1;
                p_var_decl_plus(ts, i, acc, g)
            } else {
                Ok((acc, i))
            }
        },
    }
}

/// An expression whose operators bind at least as strongly as `min`.
#[verifier::opaque]
pub open spec fn p_expr_bp(ts: Seq<TokenV>, i: int, min: u8, g: Grammar) -> PS<ExprV>
{
    let start = start_at(ts, i);
    if tok_at(ts, i) == Tok::Not && min <= BP_NOT {
        let i = i + 1;
        match ahead((g.expr)(i, 51), i, ts.len() as int) {
            Err(e) => Err(e),
            Ok((operand, i)) => {
                let lhs = expr_at(ExprKindV::Unary(UnOp::Not, Box::new(operand)), span_from(ts, i, start));
                p_expr_tail(ts, i, start, min, lhs, g)
            },
        }
    } else {
        if tok_at(ts, i) == Tok::Minus {
            let i = i + 1;
            match ahead((g.expr)(i, 85), i, ts.len() as int) {
                Err(e) => Err(e),
                Ok((operand, i)) => {
                    let lhs = expr_at(
                        ExprKindV::Unary(UnOp::Minus, Box::new(operand)),
                        span_from(ts, i, start)
                    );
                    p_expr_tail(ts, i, start, min, lhs, g)
                },
            }
        } else {
            match ahead(p_expr_postfix(ts, i, g), i, ts.len() as int) {
                Err(e) => Err(e),
                Ok((lhs, i)) => {
                    p_expr_tail(ts, i, start, min, lhs, g)
                },
            }
        }
    }
}

/// What follows an operand: updates and binary operations.
#[verifier::opaque]
pub open spec fn p_expr_tail(ts: Seq<TokenV>, i: int, start: Pos, min: u8, lhs: ExprV, g: Grammar) -> PS<ExprV>
    decreases ts.len() - i,
{
    if tok_at(ts, i) == Tok::With && min <= BP_WITH {
        let i = i + 1;
        let none = Seq::<AccessV>::empty();
        match ahead(p_access_list(ts, i, none, g), i, ts.len() as int) {
            Err(e) => Err(e),
            Ok((accesses, i)) => {
                if tok_at(ts, i) != Tok::Assign {
                    Err(expected(ts, i, "`:='"@))
                } else {
                    let i = i + 1;
                    match ahead((g.expr)(i, 61), i, ts.len() as int) {
                        Err(e) => Err(e),
                        Ok((value, i)) => {
                            let lhs = expr_at(
                                ExprKindV::Update { target: Box::new(lhs), accesses, value: Box::new(value) },
                                span_from(ts, i, start)
                            );
                            p_expr_tail(ts, i, start, min, lhs, g)
                        },
                    }
                }
            },
        }
    } else {
        match binop_of(tok_at(ts, i)) {
            Some((op, bp, right)) => if bp < min {
                Ok((lhs, i))
            } else {
                let i = i + 1;
                match ahead((g.expr)(i, if right { bp } else { (bp + 1) as u8 }), i, ts.len() as int) {
                    Err(e) => Err(e),
                    Ok((rhs, i)) => {
                        let lhs = expr_at(
                            ExprKindV::Binary(op, Box::new(lhs), Box::new(rhs)),
                            span_from(ts, i, start)
                        );
                        p_expr_tail(ts, i, start, min, lhs, g)
                    },
                }
            },
            None => Ok((lhs, i)),
        }
    }
}

/// The accesses of an update, at least one.
#[verifier::opaque]
pub open spec fn p_access_list(ts: Seq<TokenV>, i: int, acc: Seq<AccessV>, g: Grammar) -> PS<Seq<AccessV>>
    decreases ts.len() - i,
{
    match ahead(p_access_argument(ts, i, g), i, ts.len() as int) {
        Err(e) => Err(e),
        Ok((x, i)) => {
            let acc = acc.push(x);
            if (tok_at(ts, i) == Tok::LBrack || tok_at(ts, i) == Tok::Dot || tok_at(ts, i) == Tok::LParen) {
                p_access_list(ts, i, acc, g)
            } else {
                Ok((acc, i))
            }
        },
    }
}

/// A primary expression with applications and selections behind it.
#[verifier::opaque]
pub open spec fn p_expr_postfix(ts: Seq<TokenV>, i: int, g: Grammar) -> PS<ExprV>
{
    let start = start_at(ts, i);
    match ahead(p_expr_primary(ts, i, g), i, ts.len() as int) {
        Err(e) => Err(e),
        Ok((e, i)) => {
            p_postfix_tail(ts, i, start, e, g)
        },
    }
}

/// Applications and selections behind an expression.
#[verifier::opaque]
pub open spec fn p_postfix_tail(ts: Seq<TokenV>, i: int, start: Pos, e: ExprV, g: Grammar) -> PS<ExprV>
    decreases ts.len() - i,
{
    if tok_at(ts, i) == Tok::LParen {
        let i = i + 1;
        let none = Seq::<ExprV>::empty();
        match ahead(p_expr_plus(ts, i, none, g), i, ts.len() as int) {
            Err(e) => Err(e),
            Ok((args, i)) => {
                if tok_at(ts, i) != Tok::RParen {
                    Err(expected(ts, i, "`)'"@))
                } else {
                    let i = i + 1;
                    let e = expr_at(ExprKindV::App(Box::new(e), args), span_from(ts, i, start));
                    p_postfix_tail(ts, i, start, e, g)
                }
            },
        }
    } else {
        if tok_at(ts, i) == Tok::LBrack {
            let i = i + 1;
            match ahead((g.expr)(i, 0), i, ts.len() as int) {
                Err(e) => Err(e),
                Ok((idx, i)) => {
                    if tok_at(ts, i) != Tok::RBrack {
                        Err(expected(ts, i, "`]'"@))
                    } else {
                        let i = i + 1;
                        let e = expr_at(
                            ExprKindV::ArraySelect(Box::new(e), Box::new(idx)),
                            span_from(ts, i, start)
                        );
                        p_postfix_tail(ts, i, start, e, g)
                    }
                },
            }
        } else {
            if tok_at(ts, i) == Tok::Dot && tok_at(ts, i + 1) == Tok::Identifier {
                let i = i + 1;
                match ahead(p_ident(ts, i, g), i, ts.len() as int) {
                    Err(e) => Err(e),
                    Ok((id, i)) => {
                        let e = expr_at(ExprKindV::RecordSelect(Box::new(e), id), span_from(ts, i, start));
                        p_postfix_tail(ts, i, start, e, g)
                    },
                }
            } else {
                if tok_at(ts, i) == Tok::Dot && tok_at(ts, i + 1) == Tok::Numeral {
                    let i = i + 1;
                    let t = ts[i];
                    let i = i + 1;
                    match tuple_index(t.text) {
                        None => Err(Fail { pos: t.span.start, msg: "invalid tuple index"@ }),
                        Some(n) => {
                            let e = expr_at(ExprKindV::TupleSelect(Box::new(e), n), span_from(ts, i, start));
                            p_postfix_tail(ts, i, start, e, g)
                        },
                    }
                } else {
                    Ok((e, i))
                }
            }
        }
    }
}

/// Expressions with commas between them.
#[verifier::opaque]
pub open spec fn p_expr_plus(ts: Seq<TokenV>, i: int, acc: Seq<ExprV>, g: Grammar) -> PS<Seq<ExprV>>
    decreases ts.len() - i,
{
    match ahead((g.expr)(i, 0), i, ts.len() as int) {
        Err(e) => Err(e),
        Ok((x, i)) => {
            let acc = acc.push(x);
            if tok_at(ts, i) == Tok::Comma {
                let i = i + 1;
                p_expr_plus(ts, i, acc, g)
            } else {
                Ok((acc, i))
            }
        },
    }
}

/// A primary expression.
#[verifier::opaque]
pub open spec fn p_expr_primary(ts: Seq<TokenV>, i: int, g: Grammar) -> PS<ExprV>
{
    if tok_at(ts, i) == Tok::Identifier && tok_at(ts, i + 1) == Tok::Quote {
        p_next_expr(ts, i, g)
    } else {
        if tok_at(ts, i) == Tok::Identifier {
            p_name_expr(ts, i, g)
        } else {
            if tok_at(ts, i) == Tok::Numeral {
                p_numeral_expr(ts, i, g)
            } else {
                if tok_at(ts, i) == Tok::Str {
                    p_string_expr(ts, i, g)
                } else {
                    if tok_at(ts, i) == Tok::Unbounded {
                        p_unbounded_expr(ts, i, g)
                    } else {
                        if tok_at(ts, i) == Tok::LParen {
                            p_paren_expr(ts, i, g)
                        } else {
                            if tok_at(ts, i) == Tok::Lambda {
                                p_lambda_expr(ts, i, g)
                            } else {
                                if (tok_at(ts, i) == Tok::Forall || tok_at(ts, i) == Tok::Exists) {
                                    p_quantified_expr(ts, i, g)
                                } else {
                                    if tok_at(ts, i) == Tok::Let {
                                        p_let_expr(ts, i, g)
                                    } else {
                                        if tok_at(ts, i) == Tok::If {
                                            p_if_expr(ts, i, g)
                                        } else {
                                            if tok_at(ts, i) == Tok::LBrace
                                                && tok_at(ts, i + 1) == Tok::Identifier && tok_at(ts, i + 2) == Tok::Colon {
                                                p_set_pred_expr(ts, i, g)
                                            } else {
                                                if tok_at(ts, i) == Tok::LBrace {
                                                    p_set_list_expr(ts, i, g)
                                                } else {
                                                    if tok_at(ts, i) == Tok::LBrack {
                                                        p_array_expr(ts, i, g)
                                                    } else {
                                                        if tok_at(ts, i) == Tok::RecLitS {
                                                            p_record_expr(ts, i, g)
                                                        } else {
                                                            if tok_at(ts, i) == Tok::InitPred {
                                                                p_init_expr(ts, i, g)
                                                            } else {
                                                                if tok_at(ts, i) == Tok::TransPred {
                                                                    p_trans_expr(ts, i, g)
                                                                } else {
                                                                    Err(Fail { pos: start_at(ts, i), msg: "Unexpected token \""@
                                                                        + text_at(ts, i) + "\"."@ })
                                                                }
                                                            }
                                                        }
                                                    }
                                                }
                                            }
                                        }
                                    }
                                }
                            }
                        }
                    }
                }
            }
        }
    }
}

/// `x'`
#[verifier::opaque]
pub open spec fn p_next_expr(ts: Seq<TokenV>, i: int, g: Grammar) -> PS<ExprV>
{
    if tok_at(ts, i) == Tok::Identifier && tok_at(ts, i + 1) == Tok::Quote {
        let start = start_at(ts, i);
        match ahead(p_ident(ts, i, g), i, ts.len() as int) {
            Err(e) => Err(e),
            Ok((id, i)) => {
                if tok_at(ts, i) != Tok::Quote {
                    Err(expected(ts, i, "`''"@))
                } else {
                    let i = i + 1;
                    Ok((expr_at(ExprKindV::Next(id), span_from(ts, i, start)), i))
                }
            },
        }
    } else {
        Err(Fail { pos: start_at(ts, i), msg: "Unexpected token \""@ + text_at(ts, i) + "\"."@ })
    }
}

/// A name.
#[verifier::opaque]
pub open spec fn p_name_expr(ts: Seq<TokenV>, i: int, g: Grammar) -> PS<ExprV>
{
    if tok_at(ts, i) == Tok::Identifier {
        let start = start_at(ts, i);
        match ahead(p_name(ts, i, g), i, ts.len() as int) {
            Err(e) => Err(e),
            Ok((name, i)) => {
                Ok((expr_at(ExprKindV::Name(name), span_from(ts, i, start)), i))
            },
        }
    } else {
        Err(Fail { pos: start_at(ts, i), msg: "Unexpected token \""@ + text_at(ts, i) + "\"."@ })
    }
}

/// A numeral, with or without a fraction.
#[verifier::opaque]
pub open spec fn p_numeral_expr(ts: Seq<TokenV>, i: int, g: Grammar) -> PS<ExprV>
{
    if tok_at(ts, i) == Tok::Numeral {
        let start = start_at(ts, i);
        let t = ts[i];
        let i = i + 1;
        if tok_at(ts, i) == Tok::Dot && tok_at(ts, i + 1) == Tok::Numeral {
            let i = i + 1;
            let d = ts[i];
            let i = i + 1;
            let numer = t.text + d.text;
            let denom = power_text(d.text.len());
            Ok((expr_at(ExprKindV::Float { numer, denom }, span_from(ts, i, start)), i))
        } else {
            let span = t.span;
            Ok((expr_at(ExprKindV::Numeral(t.text), span), i))
        }
    } else {
        Err(Fail { pos: start_at(ts, i), msg: "Unexpected token \""@ + text_at(ts, i) + "\"."@ })
    }
}

/// A string.
#[verifier::opaque]
pub open spec fn p_string_expr(ts: Seq<TokenV>, i: int, g: Grammar) -> PS<ExprV>
{
    if tok_at(ts, i) == Tok::Str {
        let start = start_at(ts, i);
        let t = ts[i];
        let i = i + 1;
        let span = t.span;
        Ok((expr_at(ExprKindV::Str(t.text), span), i))
    } else {
        Err(Fail { pos: start_at(ts, i), msg: "Unexpected token \""@ + text_at(ts, i) + "\"."@ })
    }
}

/// `_`
#[verifier::opaque]
pub open spec fn p_unbounded_expr(ts: Seq<TokenV>, i: int, g: Grammar) -> PS<ExprV>
{
    if tok_at(ts, i) == Tok::Unbounded {
        let start = start_at(ts, i);
        let t = ts[i];
        let i = i + 1;
        let span = t.span;
        Ok((expr_at(ExprKindV::Unbounded, span), i))
    } else {
        Err(Fail { pos: start_at(ts, i), msg: "Unexpected token \""@ + text_at(ts, i) + "\"."@ })
    }
}

/// An expression in parentheses, or a tuple.
#[verifier::opaque]
pub open spec fn p_paren_expr(ts: Seq<TokenV>, i: int, g: Grammar) -> PS<ExprV>
{
    if tok_at(ts, i) == Tok::LParen {
        let start = start_at(ts, i);
        let i = i + 1;
        match ahead((g.expr)(i, 0), i, ts.len() as int) {
            Err(e) => Err(e),
            Ok((e, i)) => {
                if tok_at(ts, i) == Tok::Comma {
                    let i = i + 1;
                    let first = seq![e];
                    match ahead(p_expr_plus(ts, i, first, g), i, ts.len() as int) {
                        Err(e) => Err(e),
                        Ok((elems, i)) => {
                            if tok_at(ts, i) != Tok::RParen {
                                Err(expected(ts, i, "`)'"@))
                            } else {
                                let i = i + 1;
                                Ok((expr_at(ExprKindV::TupleLit(elems), span_from(ts, i, start)), i))
                            }
                        },
                    }
                } else {
                    if tok_at(ts, i) != Tok::RParen {
                        Err(expected(ts, i, "`)'"@))
                    } else {
                        let i = i + 1;
                        Ok((wrapped_at(e, span_from(ts, i, start)), i))
                    }
                }
            },
        }
    } else {
        Err(Fail { pos: start_at(ts, i), msg: "Unexpected token \""@ + text_at(ts, i) + "\"."@ })
    }
}

/// A function.
#[verifier::opaque]
pub open spec fn p_lambda_expr(ts: Seq<TokenV>, i: int, g: Grammar) -> PS<ExprV>
{
    if tok_at(ts, i) == Tok::Lambda {
        let start = start_at(ts, i);
        let i = i + 1;
        if tok_at(ts, i) != Tok::LParen {
            Err(expected(ts, i, "`('"@))
        } else {
            let i = i + 1;
            let none = Seq::<VarDeclV>::empty();
            match ahead(p_var_decl_plus(ts, i, none, g), i, ts.len() as int) {
                Err(e) => Err(e),
                Ok((decls, i)) => {
                    if tok_at(ts, i) != Tok::RParen {
                        Err(expected(ts, i, "`)'"@))
                    } else {
                        let i = i + 1;
                        if tok_at(ts, i) != Tok::Colon {
                            Err(expected(ts, i, "`:'"@))
                        } else {
                            let i = i + 1;
                            match ahead((g.expr)(i, 0), i, ts.len() as int) {
                                Err(e) => Err(e),
                                Ok((body, i)) => {
                                    Ok((expr_at(ExprKindV::Lambda(decls, Box::new(body)), span_from(ts, i, start)), i))
                                },
                            }
                        }
                    }
                },
            }
        }
    } else {
        Err(Fail { pos: start_at(ts, i), msg: "Unexpected token \""@ + text_at(ts, i) + "\"."@ })
    }
}

/// A quantified expression.
#[verifier::opaque]
pub open spec fn p_quantified_expr(ts: Seq<TokenV>, i: int, g: Grammar) -> PS<ExprV>
{
    if (tok_at(ts, i) == Tok::Forall || tok_at(ts, i) == Tok::Exists) {
        let start = start_at(ts, i);
        let q = if tok_at(ts, i) == Tok::Forall { Quantifier::Forall } else { Quantifier::Exists };
        let i = i + 1;
        if tok_at(ts, i) != Tok::LParen {
            Err(expected(ts, i, "`('"@))
        } else {
            let i = i + 1;
            let none = Seq::<VarDeclV>::empty();
            match ahead(p_var_decl_plus(ts, i, none, g), i, ts.len() as int) {
                Err(e) => Err(e),
                Ok((decls, i)) => {
                    if tok_at(ts, i) != Tok::RParen {
                        Err(expected(ts, i, "`)'"@))
                    } else {
                        let i = i + 1;
                        if tok_at(ts, i) != Tok::Colon {
                            Err(expected(ts, i, "`:'"@))
                        } else {
                            let i = i + 1;
                            match ahead((g.expr)(i, 0), i, ts.len() as int) {
                                Err(e) => Err(e),
                                Ok((body, i)) => {
                                    Ok((expr_at(ExprKindV::Quantified(q, decls, Box::new(body)), span_from(ts, i, start)), i))
                                },
                            }
                        }
                    }
                },
            }
        }
    } else {
        Err(Fail { pos: start_at(ts, i), msg: "Unexpected token \""@ + text_at(ts, i) + "\"."@ })
    }
}

/// Local declarations.
#[verifier::opaque]
pub open spec fn p_let_expr(ts: Seq<TokenV>, i: int, g: Grammar) -> PS<ExprV>
{
    if tok_at(ts, i) == Tok::Let {
        let start = start_at(ts, i);
        let i = i + 1;
        let none = Seq::<LetDeclV>::empty();
        match ahead(p_let_list(ts, i, none, g), i, ts.len() as int) {
            Err(e) => Err(e),
            Ok((decls, i)) => {
                if tok_at(ts, i) != Tok::In {
                    Err(expected(ts, i, "IN"@))
                } else {
                    let i = i + 1;
                    match ahead((g.expr)(i, 0), i, ts.len() as int) {
                        Err(e) => Err(e),
                        Ok((body, i)) => {
                            Ok((expr_at(ExprKindV::Let(decls, Box::new(body)), span_from(ts, i, start)), i))
                        },
                    }
                }
            },
        }
    } else {
        Err(Fail { pos: start_at(ts, i), msg: "Unexpected token \""@ + text_at(ts, i) + "\"."@ })
    }
}

/// A conditional.
#[verifier::opaque]
pub open spec fn p_if_expr(ts: Seq<TokenV>, i: int, g: Grammar) -> PS<ExprV>
{
    if tok_at(ts, i) == Tok::If {
        let start = start_at(ts, i);
        let i = i + 1;
        match ahead((g.expr)(i, 0), i, ts.len() as int) {
            Err(e) => Err(e),
            Ok((cond, i)) => {
                if tok_at(ts, i) != Tok::Then {
                    Err(expected(ts, i, "THEN"@))
                } else {
                    let i = i + 1;
                    match ahead((g.expr)(i, 0), i, ts.len() as int) {
                        Err(e) => Err(e),
                        Ok((yes, i)) => {
                            match ahead(p_conditional_tail(ts, i, start, g), i, ts.len() as int) {
                                Err(e) => Err(e),
                                Ok((no, i)) => {
                                    Ok((expr_at(ExprKindV::Conditional { cond: Box::new(cond), then_: Box::new(yes), els: Box::new(no), is_elsif: false }, span_from(ts, i, start)), i))
                                },
                            }
                        },
                    }
                }
            },
        }
    } else {
        Err(Fail { pos: start_at(ts, i), msg: "Unexpected token \""@ + text_at(ts, i) + "\"."@ })
    }
}

/// A set by its predicate.
#[verifier::opaque]
pub open spec fn p_set_pred_expr(ts: Seq<TokenV>, i: int, g: Grammar) -> PS<ExprV>
{
    if tok_at(ts, i) == Tok::LBrace && tok_at(ts, i + 1) == Tok::Identifier && tok_at(ts, i + 2) == Tok::Colon {
        let start = start_at(ts, i);
        let i = i + 1;
        match ahead(p_ident(ts, i, g), i, ts.len() as int) {
            Err(e) => Err(e),
            Ok((var, i)) => {
                if tok_at(ts, i) != Tok::Colon {
                    Err(expected(ts, i, "`:'"@))
                } else {
                    let i = i + 1;
                    match ahead((g.ty)(i), i, ts.len() as int) {
                        Err(e) => Err(e),
                        Ok((ty, i)) => {
                            if tok_at(ts, i) != Tok::VBar {
                                Err(expected(ts, i, "`|'"@))
                            } else {
                                let i = i + 1;
                                match ahead((g.expr)(i, 0), i, ts.len() as int) {
                                    Err(e) => Err(e),
                                    Ok((pred, i)) => {
                                        if tok_at(ts, i) != Tok::RBrace {
                                            Err(expected(ts, i, "`}'"@))
                                        } else {
                                            let i = i + 1;
                                            let span = span_from(ts, i, start);
                                            let sp = SetPredV { var, ty, pred, span };
                                            Ok((expr_at(ExprKindV::SetPred(Box::new(sp)), span), i))
                                        }
                                    },
                                }
                            }
                        },
                    }
                }
            },
        }
    } else {
        Err(Fail { pos: start_at(ts, i), msg: "Unexpected token \""@ + text_at(ts, i) + "\"."@ })
    }
}

/// A set by its elements.
#[verifier::opaque]
pub open spec fn p_set_list_expr(ts: Seq<TokenV>, i: int, g: Grammar) -> PS<ExprV>
{
    if tok_at(ts, i) == Tok::LBrace {
        let start = start_at(ts, i);
        let i = i + 1;
        let none = Seq::<ExprV>::empty();
        match ahead(p_expr_plus(ts, i, none, g), i, ts.len() as int) {
            Err(e) => Err(e),
            Ok((elems, i)) => {
                if tok_at(ts, i) != Tok::RBrace {
                    Err(expected(ts, i, "`}'"@))
                } else {
                    let i = i + 1;
                    Ok((expr_at(ExprKindV::SetList(elems), span_from(ts, i, start)), i))
                }
            },
        }
    } else {
        Err(Fail { pos: start_at(ts, i), msg: "Unexpected token \""@ + text_at(ts, i) + "\"."@ })
    }
}

/// An array.
#[verifier::opaque]
pub open spec fn p_array_expr(ts: Seq<TokenV>, i: int, g: Grammar) -> PS<ExprV>
{
    if tok_at(ts, i) == Tok::LBrack {
        let start = start_at(ts, i);
        let i = i + 1;
        if tok_at(ts, i) != Tok::LBrack {
            Err(expected(ts, i, "`['"@))
        } else {
            let i = i + 1;
            match ahead(p_ident(ts, i, g), i, ts.len() as int) {
                Err(e) => Err(e),
                Ok((id, i)) => {
                    if tok_at(ts, i) != Tok::Colon {
                        Err(expected(ts, i, "`:'"@))
                    } else {
                        let i = i + 1;
                        match ahead((g.ty)(i), i, ts.len() as int) {
                            Err(e) => Err(e),
                            Ok((ty, i)) => {
                                if tok_at(ts, i) != Tok::RBrack {
                                    Err(expected(ts, i, "`]'"@))
                                } else {
                                    let i = i + 1;
                                    let vspan = Span { start, end: ty.span.end };
                                    match ahead((g.expr)(i, 0), i, ts.len() as int) {
                                        Err(e) => Err(e),
                                        Ok((body, i)) => {
                                            if tok_at(ts, i) != Tok::RBrack {
                                                Err(expected(ts, i, "`]'"@))
                                            } else {
                                                let i = i + 1;
                                                let names = seq![id];
                                                let decl = VarDeclV { names, ty, span: vspan };
                                                Ok((expr_at(ExprKindV::ArrayLit(Box::new(decl), Box::new(body)), span_from(ts, i, start)), i))
                                            }
                                        },
                                    }
                                }
                            },
                        }
                    }
                },
            }
        }
    } else {
        Err(Fail { pos: start_at(ts, i), msg: "Unexpected token \""@ + text_at(ts, i) + "\"."@ })
    }
}

/// A record.
#[verifier::opaque]
pub open spec fn p_record_expr(ts: Seq<TokenV>, i: int, g: Grammar) -> PS<ExprV>
{
    if tok_at(ts, i) == Tok::RecLitS {
        let start = start_at(ts, i);
        let i = i + 1;
        let none = Seq::<(IdentV, ExprV)>::empty();
        match ahead(p_entry_list(ts, i, none, g), i, ts.len() as int) {
            Err(e) => Err(e),
            Ok((entries, i)) => {
                if tok_at(ts, i) != Tok::RecLitE {
                    Err(expected(ts, i, "`#)'"@))
                } else {
                    let i = i + 1;
                    Ok((expr_at(ExprKindV::RecordLit(entries), span_from(ts, i, start)), i))
                }
            },
        }
    } else {
        Err(Fail { pos: start_at(ts, i), msg: "Unexpected token \""@ + text_at(ts, i) + "\"."@ })
    }
}

/// The initial states of a module.
#[verifier::opaque]
pub open spec fn p_init_expr(ts: Seq<TokenV>, i: int, g: Grammar) -> PS<ExprV>
{
    if tok_at(ts, i) == Tok::InitPred {
        let start = start_at(ts, i);
        let i = i + 1;
        if tok_at(ts, i) != Tok::LParen {
            Err(expected(ts, i, "`('"@))
        } else {
            let i = i + 1;
            match ahead((g.module)(i), i, ts.len() as int) {
                Err(e) => Err(e),
                Ok((m, i)) => {
                    if tok_at(ts, i) != Tok::RParen {
                        Err(expected(ts, i, "`)'"@))
                    } else {
                        let i = i + 1;
                        Ok((expr_at(ExprKindV::ModInit(Box::new(m)), span_from(ts, i, start)), i))
                    }
                },
            }
        }
    } else {
        Err(Fail { pos: start_at(ts, i), msg: "Unexpected token \""@ + text_at(ts, i) + "\"."@ })
    }
}

/// The transitions of a module.
#[verifier::opaque]
pub open spec fn p_trans_expr(ts: Seq<TokenV>, i: int, g: Grammar) -> PS<ExprV>
{
    if tok_at(ts, i) == Tok::TransPred {
        let start = start_at(ts, i);
        let i = i + 1;
        if tok_at(ts, i) != Tok::LParen {
            Err(expected(ts, i, "`('"@))
        } else {
            let i = i + 1;
            match ahead((g.module)(i), i, ts.len() as int) {
                Err(e) => Err(e),
                Ok((m, i)) => {
                    if tok_at(ts, i) != Tok::RParen {
                        Err(expected(ts, i, "`)'"@))
                    } else {
                        let i = i + 1;
                        Ok((expr_at(ExprKindV::ModTrans(Box::new(m)), span_from(ts, i, start)), i))
                    }
                },
            }
        }
    } else {
        Err(Fail { pos: start_at(ts, i), msg: "Unexpected token \""@ + text_at(ts, i) + "\"."@ })
    }
}

/// The entries of a record.
#[verifier::opaque]
pub open spec fn p_entry_list(
    ts: Seq<TokenV>,
    i: int,
    acc: Seq<(IdentV, ExprV)>,
    g: Grammar
) -> PS<Seq<(IdentV, ExprV)>>
    decreases ts.len() - i,
{
    match ahead(p_ident(ts, i, g), i, ts.len() as int) {
        Err(e) => Err(e),
        Ok((id, i)) => {
            if tok_at(ts, i) != Tok::Assign {
                Err(expected(ts, i, "`:='"@))
            } else {
                let i = i + 1;
                match ahead((g.expr)(i, 0), i, ts.len() as int) {
                    Err(e) => Err(e),
                    Ok((e, i)) => {
                        let acc = acc.push((id, e));
                        if tok_at(ts, i) == Tok::Comma {
                            let i = i + 1;
                            p_entry_list(ts, i, acc, g)
                        } else {
                            Ok((acc, i))
                        }
                    },
                }
            }
        },
    }
}

/// What follows the first branch of a conditional.
#[verifier::opaque]
pub open spec fn p_conditional_tail(ts: Seq<TokenV>, i: int, start: Pos, g: Grammar) -> PS<ExprV>
    decreases ts.len() - i,
{
    if tok_at(ts, i) == Tok::Elsif {
        let i = i + 1;
        match ahead((g.expr)(i, 0), i, ts.len() as int) {
            Err(e) => Err(e),
            Ok((cond, i)) => {
                if tok_at(ts, i) != Tok::Then {
                    Err(expected(ts, i, "THEN"@))
                } else {
                    let i = i + 1;
                    match ahead((g.expr)(i, 0), i, ts.len() as int) {
                        Err(e) => Err(e),
                        Ok((yes, i)) => {
                            match ahead(p_conditional_tail(ts, i, start, g), i, ts.len() as int) {
                                Err(e) => Err(e),
                                Ok((no, i)) => {
                                    Ok((expr_at(ExprKindV::Conditional { cond: Box::new(cond), then_: Box::new(yes), els: Box::new(no), is_elsif: true }, span_from(ts, i, start)), i))
                                },
                            }
                        },
                    }
                }
            },
        }
    } else {
        if tok_at(ts, i) != Tok::Else {
            Err(expected(ts, i, "ELSE"@))
        } else {
            let i = i + 1;
            match ahead((g.expr)(i, 0), i, ts.len() as int) {
                Err(e) => Err(e),
                Ok((e, i)) => {
                    if tok_at(ts, i) != Tok::Endif {
                        Err(expected(ts, i, "ENDIF"@))
                    } else {
                        let i = i + 1;
                        Ok((e, i))
                    }
                },
            }
        }
    }
}

/// `x : T = e`
#[verifier::opaque]
pub open spec fn p_let_decl(ts: Seq<TokenV>, i: int, g: Grammar) -> PS<LetDeclV>
{
    match ahead(p_ident(ts, i, g), i, ts.len() as int) {
        Err(e) => Err(e),
        Ok((name, i)) => {
            if tok_at(ts, i) != Tok::Colon {
                Err(expected(ts, i, "`:'"@))
            } else {
                let i = i + 1;
                match ahead((g.ty)(i), i, ts.len() as int) {
                    Err(e) => Err(e),
                    Ok((ty, i)) => {
                        if tok_at(ts, i) != Tok::Eq {
                            Err(expected(ts, i, "`='"@))
                        } else {
                            let i = i + 1;
                            match ahead((g.expr)(i, 0), i, ts.len() as int) {
                                Err(e) => Err(e),
                                Ok((value, i)) => {
                                    Ok((LetDeclV { name, ty, value }, i))
                                },
                            }
                        }
                    },
                }
            }
        },
    }
}

/// Local declarations with commas between them.
#[verifier::opaque]
pub open spec fn p_let_list(ts: Seq<TokenV>, i: int, acc: Seq<LetDeclV>, g: Grammar) -> PS<Seq<LetDeclV>>
    decreases ts.len() - i,
{
    match ahead(p_let_decl(ts, i, g), i, ts.len() as int) {
        Err(e) => Err(e),
        Ok((x, i)) => {
            let acc = acc.push(x);
            if tok_at(ts, i) == Tok::Comma {
                let i = i + 1;
                p_let_list(ts, i, acc, g)
            } else {
                Ok((acc, i))
            }
        },
    }
}

/// A step of an access path.
#[verifier::opaque]
pub open spec fn p_access_argument(ts: Seq<TokenV>, i: int, g: Grammar) -> PS<AccessV>
{
    if tok_at(ts, i) == Tok::LBrack {
        let i = i + 1;
        match ahead((g.expr)(i, 0), i, ts.len() as int) {
            Err(e) => Err(e),
            Ok((e, i)) => {
                if tok_at(ts, i) != Tok::RBrack {
                    Err(expected(ts, i, "`]'"@))
                } else {
                    let i = i + 1;
                    Ok((AccessV::Array(e), i))
                }
            },
        }
    } else {
        if tok_at(ts, i) == Tok::Dot {
            let i = i + 1;
            if tok_at(ts, i) == Tok::Numeral {
                let t = ts[i];
                let i = i + 1;
                match tuple_index(t.text) {
                    None => Err(Fail { pos: t.span.start, msg: "invalid tuple index"@ }),
                    Some(n) => {
                        Ok((AccessV::Tuple(n), i))
                    },
                }
            } else {
                match ahead(p_ident(ts, i, g), i, ts.len() as int) {
                    Err(e) => Err(e),
                    Ok((id, i)) => {
                        Ok((AccessV::Record(id), i))
                    },
                }
            }
        } else {
            if tok_at(ts, i) == Tok::LParen {
                let i = i + 1;
                let none = Seq::<ExprV>::empty();
                match ahead(p_expr_plus(ts, i, none, g), i, ts.len() as int) {
                    Err(e) => Err(e),
                    Ok((args, i)) => {
                        if tok_at(ts, i) != Tok::RParen {
                            Err(expected(ts, i, "`)'"@))
                        } else {
                            let i = i + 1;
                            Ok((AccessV::Args(args), i))
                        }
                    },
                }
            } else {
                Err(Fail { pos: start_at(ts, i), msg: "expected an access (`[', `.' or `(')"@ })
            }
        }
    }
}

/// A module.
#[verifier::opaque]
pub open spec fn p_module(ts: Seq<TokenV>, i: int, g: Grammar) -> PS<ModuleV>
{
    let start = start_at(ts, i);
    if tok_at(ts, i) == Tok::Local {
        let i = i + 1;
        let none = Seq::<IdentV>::empty();
        match ahead(p_ident_list(ts, i, none, g), i, ts.len() as int) {
            Err(e) => Err(e),
            Ok((ids, i)) => {
                if tok_at(ts, i) != Tok::In {
                    Err(expected(ts, i, "IN"@))
                } else {
                    let i = i + 1;
                    match ahead((g.module)(i), i, ts.len() as int) {
                        Err(e) => Err(e),
                        Ok((m, i)) => {
                            Ok((module_at(ModuleKindV::Hide(ids, Box::new(m)), span_from(ts, i, start)), i))
                        },
                    }
                }
            },
        }
    } else {
        if tok_at(ts, i) == Tok::Output {
            let i = i + 1;
            let none = Seq::<IdentV>::empty();
            match ahead(p_ident_list(ts, i, none, g), i, ts.len() as int) {
                Err(e) => Err(e),
                Ok((ids, i)) => {
                    if tok_at(ts, i) != Tok::In {
                        Err(expected(ts, i, "IN"@))
                    } else {
                        let i = i + 1;
                        match ahead((g.module)(i), i, ts.len() as int) {
                            Err(e) => Err(e),
                            Ok((m, i)) => {
                                Ok((module_at(ModuleKindV::NewOutput(ids, Box::new(m)), span_from(ts, i, start)), i))
                            },
                        }
                    }
                },
            }
        } else {
            if tok_at(ts, i) == Tok::Rename {
                let i = i + 1;
                let none = Seq::<(LhsV, LhsV)>::empty();
                match ahead(p_rename_list(ts, i, none, g), i, ts.len() as int) {
                    Err(e) => Err(e),
                    Ok((renames, i)) => {
                        if tok_at(ts, i) != Tok::In {
                            Err(expected(ts, i, "IN"@))
                        } else {
                            let i = i + 1;
                            match ahead((g.module)(i), i, ts.len() as int) {
                                Err(e) => Err(e),
                                Ok((m, i)) => {
                                    Ok((module_at(ModuleKindV::Rename(renames, Box::new(m)), span_from(ts, i, start)), i))
                                },
                            }
                        }
                    },
                }
            } else {
                if tok_at(ts, i) == Tok::With {
                    let i = i + 1;
                    let none = Seq::<NewVarDeclV>::empty();
                    match ahead(p_new_var_list(ts, i, none, g), i, ts.len() as int) {
                        Err(e) => Err(e),
                        Ok((decls, i)) => {
                            match ahead((g.module)(i), i, ts.len() as int) {
                                Err(e) => Err(e),
                                Ok((m, i)) => {
                                    Ok((module_at(ModuleKindV::With(decls, Box::new(m)), span_from(ts, i, start)), i))
                                },
                            }
                        },
                    }
                } else {
                    if tok_at(ts, i) == Tok::Observe {
                        let i = i + 1;
                        match ahead(p_module_binary(ts, i, g), i, ts.len() as int) {
                            Err(e) => Err(e),
                            Ok((m1, i)) => {
                                if tok_at(ts, i) != Tok::With {
                                    Err(expected(ts, i, "WITH"@))
                                } else {
                                    let i = i + 1;
                                    match ahead((g.module)(i), i, ts.len() as int) {
                                        Err(e) => Err(e),
                                        Ok((m2, i)) => {
                                            Ok((module_at(ModuleKindV::Observe(Box::new(m1), Box::new(m2)), span_from(ts, i, start)), i))
                                        },
                                    }
                                }
                            },
                        }
                    } else {
                        p_module_binary(ts, i, g)
                    }
                }
            }
        }
    }
}

/// Modules composed by `[]` and `||`.
#[verifier::opaque]
pub open spec fn p_module_binary(ts: Seq<TokenV>, i: int, g: Grammar) -> PS<ModuleV>
{
    let start = start_at(ts, i);
    match ahead(p_module_sync(ts, i, g), i, ts.len() as int) {
        Err(e) => Err(e),
        Ok((m, i)) => {
            p_async_tail(ts, i, start, m, g)
        },
    }
}

/// Modules composed by `[]` with the one before.
#[verifier::opaque]
pub open spec fn p_async_tail(ts: Seq<TokenV>, i: int, start: Pos, m: ModuleV, g: Grammar) -> PS<ModuleV>
    decreases ts.len() - i,
{
    if tok_at(ts, i) == Tok::Async {
        let i = i + 1;
        if (tok_at(ts, i) == Tok::Local || tok_at(ts, i) == Tok::Output
            || tok_at(ts, i) == Tok::Rename || tok_at(ts, i) == Tok::With || tok_at(ts, i) == Tok::Observe) {
            match ahead((g.module)(i), i, ts.len() as int) {
                Err(e) => Err(e),
                Ok((rhs, i)) => {
                    Ok((module_at(ModuleKindV::Async(Box::new(m), Box::new(rhs)), span_from(ts, i, start)), i))
                },
            }
        } else {
            match ahead(p_module_sync(ts, i, g), i, ts.len() as int) {
                Err(e) => Err(e),
                Ok((rhs, i)) => {
                    let m = module_at(ModuleKindV::Async(Box::new(m), Box::new(rhs)), span_from(ts, i, start));
                    p_async_tail(ts, i, start, m, g)
                },
            }
        }
    } else {
        Ok((m, i))
    }
}

/// Modules composed by `||`.
#[verifier::opaque]
pub open spec fn p_module_sync(ts: Seq<TokenV>, i: int, g: Grammar) -> PS<ModuleV>
{
    let start = start_at(ts, i);
    match ahead(p_module_primary(ts, i, g), i, ts.len() as int) {
        Err(e) => Err(e),
        Ok((m, i)) => {
            p_sync_tail(ts, i, start, m, g)
        },
    }
}

/// Modules composed by `||` with the one before.
#[verifier::opaque]
pub open spec fn p_sync_tail(ts: Seq<TokenV>, i: int, start: Pos, m: ModuleV, g: Grammar) -> PS<ModuleV>
    decreases ts.len() - i,
{
    if tok_at(ts, i) == Tok::Sync {
        let i = i + 1;
        if (tok_at(ts, i) == Tok::Local || tok_at(ts, i) == Tok::Output
            || tok_at(ts, i) == Tok::Rename || tok_at(ts, i) == Tok::With || tok_at(ts, i) == Tok::Observe) {
            match ahead((g.module)(i), i, ts.len() as int) {
                Err(e) => Err(e),
                Ok((rhs, i)) => {
                    Ok((module_at(ModuleKindV::Sync(Box::new(m), Box::new(rhs)), span_from(ts, i, start)), i))
                },
            }
        } else {
            match ahead(p_module_primary(ts, i, g), i, ts.len() as int) {
                Err(e) => Err(e),
                Ok((rhs, i)) => {
                    let m = module_at(ModuleKindV::Sync(Box::new(m), Box::new(rhs)), span_from(ts, i, start));
                    p_sync_tail(ts, i, start, m, g)
                },
            }
        }
    } else {
        Ok((m, i))
    }
}

/// A module that no operator composes.
#[verifier::opaque]
pub open spec fn p_module_primary(ts: Seq<TokenV>, i: int, g: Grammar) -> PS<ModuleV>
{
    let start = start_at(ts, i);
    if tok_at(ts, i) == Tok::Begin {
        match ahead(p_base_module(ts, i, g), i, ts.len() as int) {
            Err(e) => Err(e),
            Ok((base, i)) => {
                let span = base.span;
                Ok((module_at(ModuleKindV::Base(base), span), i))
            },
        }
    } else {
        if tok_at(ts, i) == Tok::LParen && (tok_at(ts, i + 1) == Tok::Async || tok_at(ts, i + 1) == Tok::Sync) {
            let i = i + 1;
            let is_async = tok_at(ts, i) == Tok::Async;
            let i = i + 1;
            if tok_at(ts, i) != Tok::LParen {
                Err(expected(ts, i, "`('"@))
            } else {
                let i = i + 1;
                let none = Seq::<VarDeclV>::empty();
                match ahead(p_var_decl_plus(ts, i, none, g), i, ts.len() as int) {
                    Err(e) => Err(e),
                    Ok((decls, i)) => {
                        if tok_at(ts, i) != Tok::RParen {
                            Err(expected(ts, i, "`)'"@))
                        } else {
                            let i = i + 1;
                            if tok_at(ts, i) != Tok::Colon {
                                Err(expected(ts, i, "`:'"@))
                            } else {
                                let i = i + 1;
                                match ahead((g.module)(i), i, ts.len() as int) {
                                    Err(e) => Err(e),
                                    Ok((m, i)) => {
                                        if tok_at(ts, i) != Tok::RParen {
                                            Err(expected(ts, i, "`)'"@))
                                        } else {
                                            let i = i + 1;
                                            if decls.len() != 1 || decls[0].names.len() != 1 {
                                                Err(Fail { pos: start_at(ts, i), msg: "A single variable declaration is expected in a multi-composition/multi-command."@ })
                                            } else {
                                                let decl = decls[0];
                                                if is_async {
                                                    Ok((module_at(ModuleKindV::MultiAsync(Box::new(decl), Box::new(m)), span_from(ts, i, start)), i))
                                                } else {
                                                    Ok((module_at(ModuleKindV::MultiSync(Box::new(decl), Box::new(m)), span_from(ts, i, start)), i))
                                                }
                                            }
                                        }
                                    },
                                }
                            }
                        }
                    },
                }
            }
        } else {
            if tok_at(ts, i) == Tok::LParen {
                let i = i + 1;
                match ahead((g.module)(i), i, ts.len() as int) {
                    Err(e) => Err(e),
                    Ok((m, i)) => {
                        if tok_at(ts, i) != Tok::RParen {
                            Err(expected(ts, i, "`)'"@))
                        } else {
                            let i = i + 1;
                            Ok((enclosed_at(m, span_from(ts, i, start)), i))
                        }
                    },
                }
            } else {
                if tok_at(ts, i) == Tok::Identifier {
                    match ahead(p_name(ts, i, g), i, ts.len() as int) {
                        Err(e) => Err(e),
                        Ok((name, i)) => {
                            let none = Seq::<ExprV>::empty();
                            if tok_at(ts, i) == Tok::LBrack {
                                let i = i + 1;
                                match ahead(p_expr_plus(ts, i, none, g), i, ts.len() as int) {
                                    Err(e) => Err(e),
                                    Ok((actuals, i)) => {
                                        if tok_at(ts, i) != Tok::RBrack {
                                            Err(expected(ts, i, "`]'"@))
                                        } else {
                                            let i = i + 1;
                                            Ok((module_at(ModuleKindV::Instance(name, actuals), span_from(ts, i, start)), i))
                                        }
                                    },
                                }
                            } else {
                                Ok((module_at(ModuleKindV::Instance(name, none), span_from(ts, i, start)), i))
                            }
                        },
                    }
                } else {
                    Err(Fail { pos: start_at(ts, i), msg: "Unexpected token \""@ + text_at(ts, i)
                        + "\" (module expected)."@ })
                }
            }
        }
    }
}

/// `a TO b`
#[verifier::opaque]
pub open spec fn p_rename(ts: Seq<TokenV>, i: int, g: Grammar) -> PS<(LhsV, LhsV)>
{
    match ahead(p_lhs(ts, i, g), i, ts.len() as int) {
        Err(e) => Err(e),
        Ok((l1, i)) => {
            if l1.next {
                Err(Fail { pos: start_at(ts, i), msg: "Invalid use of next operator in rename definition."@ })
            } else {
                if tok_at(ts, i) != Tok::To {
                    Err(expected(ts, i, "TO"@))
                } else {
                    let i = i + 1;
                    match ahead(p_lhs(ts, i, g), i, ts.len() as int) {
                        Err(e) => Err(e),
                        Ok((l2, i)) => {
                            if l2.next {
                                Err(Fail { pos: start_at(ts, i), msg: "Invalid use of next operator in rename definition."@ })
                            } else {
                                Ok(((l1, l2), i))
                            }
                        },
                    }
                }
            }
        },
    }
}

/// Renamings with commas between them.
#[verifier::opaque]
pub open spec fn p_rename_list(
    ts: Seq<TokenV>,
    i: int,
    acc: Seq<(LhsV, LhsV)>,
    g: Grammar
) -> PS<Seq<(LhsV, LhsV)>>
    decreases ts.len() - i,
{
    match ahead(p_rename(ts, i, g), i, ts.len() as int) {
        Err(e) => Err(e),
        Ok((x, i)) => {
            let acc = acc.push(x);
            if tok_at(ts, i) == Tok::Comma {
                let i = i + 1;
                p_rename_list(ts, i, acc, g)
            } else {
                Ok((acc, i))
            }
        },
    }
}

/// Variables that a `WITH` module adds.
#[verifier::opaque]
pub open spec fn p_new_var_decl(ts: Seq<TokenV>, i: int, g: Grammar) -> PS<NewVarDeclV>
{
    if !((tok_at(ts, i) == Tok::Input || tok_at(ts, i) == Tok::Output || tok_at(ts, i) == Tok::Global)) {
        Err(Fail { pos: start_at(ts, i), msg: "expected INPUT, OUTPUT or GLOBAL declaration in WITH module"@ })
    } else {
        let class = if tok_at(ts, i) == Tok::Input { VarClass::Input } else if tok_at(ts, i)
            == Tok::Output { VarClass::Output } else { VarClass::Global };
        let i = i + 1;
        let none = Seq::<VarDeclV>::empty();
        match ahead(p_var_decl_plus(ts, i, none, g), i, ts.len() as int) {
            Err(e) => Err(e),
            Ok((decls, i)) => {
                Ok((NewVarDeclV { class, decls }, i))
            },
        }
    }
}

/// Groups of added variables with semicolons between them.
#[verifier::opaque]
pub open spec fn p_new_var_list(
    ts: Seq<TokenV>,
    i: int,
    acc: Seq<NewVarDeclV>,
    g: Grammar
) -> PS<Seq<NewVarDeclV>>
    decreases ts.len() - i,
{
    match ahead(p_new_var_decl(ts, i, g), i, ts.len() as int) {
        Err(e) => Err(e),
        Ok((x, i)) => {
            let acc = acc.push(x);
            if tok_at(ts, i) == Tok::Semi {
                let i = i + 1;
                p_new_var_list(ts, i, acc, g)
            } else {
                Ok((acc, i))
            }
        },
    }
}

/// A base module.
#[verifier::opaque]
pub open spec fn p_base_module(ts: Seq<TokenV>, i: int, g: Grammar) -> PS<BaseModuleV>
{
    let start = start_at(ts, i);
    if tok_at(ts, i) != Tok::Begin {
        Err(expected(ts, i, "BEGIN"@))
    } else {
        let i = i + 1;
        let none = Seq::<BaseDeclV>::empty();
        match ahead(p_sections(ts, i, none, g), i, ts.len() as int) {
            Err(e) => Err(e),
            Ok((decls, i)) => {
                Ok((BaseModuleV { decls, span: span_from(ts, i, start) }, i))
            },
        }
    }
}

/// The sections of a base module, up to its end.
#[verifier::opaque]
pub open spec fn p_sections(ts: Seq<TokenV>, i: int, acc: Seq<BaseDeclV>, g: Grammar) -> PS<Seq<BaseDeclV>>
    decreases ts.len() - i,
{
    if tok_at(ts, i) == Tok::Input {
        let i = i + 1;
        let none = Seq::<VarDeclV>::empty();
        match ahead(p_var_decl_plus(ts, i, none, g), i, ts.len() as int) {
            Err(e) => Err(e),
            Ok((ds, i)) => {
                let acc = acc.push(BaseDeclV::Vars(VarClass::Input, ds));
                p_sections(ts, i, acc, g)
            },
        }
    } else {
        if tok_at(ts, i) == Tok::Output {
            let i = i + 1;
            let none = Seq::<VarDeclV>::empty();
            match ahead(p_var_decl_plus(ts, i, none, g), i, ts.len() as int) {
                Err(e) => Err(e),
                Ok((ds, i)) => {
                    let acc = acc.push(BaseDeclV::Vars(VarClass::Output, ds));
                    p_sections(ts, i, acc, g)
                },
            }
        } else {
            if tok_at(ts, i) == Tok::Global {
                let i = i + 1;
                let none = Seq::<VarDeclV>::empty();
                match ahead(p_var_decl_plus(ts, i, none, g), i, ts.len() as int) {
                    Err(e) => Err(e),
                    Ok((ds, i)) => {
                        let acc = acc.push(BaseDeclV::Vars(VarClass::Global, ds));
                        p_sections(ts, i, acc, g)
                    },
                }
            } else {
                if tok_at(ts, i) == Tok::Local {
                    let i = i + 1;
                    let none = Seq::<VarDeclV>::empty();
                    match ahead(p_var_decl_plus(ts, i, none, g), i, ts.len() as int) {
                        Err(e) => Err(e),
                        Ok((ds, i)) => {
                            let acc = acc.push(BaseDeclV::Vars(VarClass::Local, ds));
                            p_sections(ts, i, acc, g)
                        },
                    }
                } else {
                    if tok_at(ts, i) == Tok::Definition {
                        let i = i + 1;
                        let none = Seq::<DefinitionV>::empty();
                        match ahead(p_definition_plus(ts, i, none, g), i, ts.len() as int) {
                            Err(e) => Err(e),
                            Ok((ds, i)) => {
                                let acc = acc.push(BaseDeclV::Definition(ds));
                                p_sections(ts, i, acc, g)
                            },
                        }
                    } else {
                        if tok_at(ts, i) == Tok::Initialization {
                            let i = i + 1;
                            let none = Seq::<DefOrCommandV>::empty();
                            match ahead(p_def_or_command_plus(ts, i, none, g), i, ts.len() as int) {
                                Err(e) => Err(e),
                                Ok((ds, i)) => {
                                    let acc = acc.push(BaseDeclV::Initialization(ds));
                                    p_sections(ts, i, acc, g)
                                },
                            }
                        } else {
                            if tok_at(ts, i) == Tok::Transition {
                                let i = i + 1;
                                let none = Seq::<DefOrCommandV>::empty();
                                match ahead(p_def_or_command_plus(ts, i, none, g), i, ts.len() as int) {
                                    Err(e) => Err(e),
                                    Ok((ds, i)) => {
                                        let acc = acc.push(BaseDeclV::Transition(ds));
                                        p_sections(ts, i, acc, g)
                                    },
                                }
                            } else {
                                if tok_at(ts, i) == Tok::End {
                                    let i = i + 1;
                                    Ok((acc, i))
                                } else {
                                    Err(Fail { pos: start_at(ts, i), msg: "Unexpected token \""@
                                        + text_at(ts, i) + "\" in base module."@ })
                                }
                            }
                        }
                    }
                }
            }
        }
    }
}

/// Definitions with semicolons between them, and possibly one behind the last.
#[verifier::opaque]
pub open spec fn p_definition_plus(
    ts: Seq<TokenV>,
    i: int,
    acc: Seq<DefinitionV>,
    g: Grammar
) -> PS<Seq<DefinitionV>>
    decreases ts.len() - i,
{
    match ahead((g.def)(i), i, ts.len() as int) {
        Err(e) => Err(e),
        Ok((x, i)) => {
            let acc = acc.push(x);
            if tok_at(ts, i) == Tok::Semi {
                let i = i + 1;
                if (tok_at(ts, i) == Tok::Input || tok_at(ts, i) == Tok::Output
                    || tok_at(ts, i) == Tok::Global || tok_at(ts, i) == Tok::Local || tok_at(ts, i) == Tok::Definition
                    || tok_at(ts, i) == Tok::Initialization || tok_at(ts, i) == Tok::Transition
                    || tok_at(ts, i) == Tok::End) {
                    Ok((acc, i))
                } else {
                    p_definition_plus(ts, i, acc, g)
                }
            } else {
                Ok((acc, i))
            }
        },
    }
}

/// A definition.
#[verifier::opaque]
pub open spec fn p_definition(ts: Seq<TokenV>, i: int, g: Grammar) -> PS<DefinitionV>
{
    if tok_at(ts, i) == Tok::LParen && tok_at(ts, i + 1) == Tok::Forall {
        p_forall_definition(ts, i, g)
    } else {
        p_simple_definition(ts, i, g)
    }
}

/// `(FORALL (decls) : defs)`
#[verifier::opaque]
pub open spec fn p_forall_definition(ts: Seq<TokenV>, i: int, g: Grammar) -> PS<DefinitionV>
{
    if !(tok_at(ts, i) == Tok::LParen) {
        Err(Fail { pos: start_at(ts, i), msg: "expected `=' or IN in definition"@ })
    } else {
        let i = i + 1;
        if !(tok_at(ts, i) == Tok::Forall) {
            Err(Fail { pos: start_at(ts, i), msg: "expected `=' or IN in definition"@ })
        } else {
            let i = i + 1;
            if tok_at(ts, i) != Tok::LParen {
                Err(expected(ts, i, "`('"@))
            } else {
                let i = i + 1;
                let none = Seq::<VarDeclV>::empty();
                match ahead(p_var_decl_plus(ts, i, none, g), i, ts.len() as int) {
                    Err(e) => Err(e),
                    Ok((decls, i)) => {
                        if tok_at(ts, i) != Tok::RParen {
                            Err(expected(ts, i, "`)'"@))
                        } else {
                            let i = i + 1;
                            if tok_at(ts, i) != Tok::Colon {
                                Err(expected(ts, i, "`:'"@))
                            } else {
                                let i = i + 1;
                                let nodefs = Seq::<DefinitionV>::empty();
                                match ahead(p_definition_plus(ts, i, nodefs, g), i, ts.len() as int) {
                                    Err(e) => Err(e),
                                    Ok((defs, i)) => {
                                        if tok_at(ts, i) != Tok::RParen {
                                            Err(expected(ts, i, "`)'"@))
                                        } else {
                                            let i = i + 1;
                                            Ok((DefinitionV::Forall(decls, defs), i))
                                        }
                                    },
                                }
                            }
                        }
                    },
                }
            }
        }
    }
}

/// A definition of one left side.
#[verifier::opaque]
pub open spec fn p_simple_definition(ts: Seq<TokenV>, i: int, g: Grammar) -> PS<DefinitionV>
{
    let start = start_at(ts, i);
    match ahead(p_lhs(ts, i, g), i, ts.len() as int) {
        Err(e) => Err(e),
        Ok((lhs, i)) => {
            match ahead(p_right_side(ts, i, g), i, ts.len() as int) {
                Err(e) => Err(e),
                Ok((rhs, i)) => {
                    let def = SimpleDefinitionV { lhs, rhs, span: span_from(ts, i, start) };
                    Ok((DefinitionV::Simple(def), i))
                },
            }
        },
    }
}

/// `= e` or `IN e`
#[verifier::opaque]
pub open spec fn p_right_side(ts: Seq<TokenV>, i: int, g: Grammar) -> PS<RhsV>
{
    if tok_at(ts, i) == Tok::Eq {
        let i = i + 1;
        match ahead((g.expr)(i, 0), i, ts.len() as int) {
            Err(e) => Err(e),
            Ok((e, i)) => {
                Ok((RhsV::Expr(e), i))
            },
        }
    } else {
        if tok_at(ts, i) == Tok::In {
            let i = i + 1;
            match ahead((g.expr)(i, 0), i, ts.len() as int) {
                Err(e) => Err(e),
                Ok((e, i)) => {
                    Ok((RhsV::Selection(e), i))
                },
            }
        } else {
            Err(Fail { pos: start_at(ts, i), msg: "expected `=' or IN in definition"@ })
        }
    }
}

/// The left side of a definition.
#[verifier::opaque]
pub open spec fn p_lhs(ts: Seq<TokenV>, i: int, g: Grammar) -> PS<LhsV>
{
    let start = start_at(ts, i);
    match ahead(p_ident(ts, i, g), i, ts.len() as int) {
        Err(e) => Err(e),
        Ok((base, i)) => {
            let none = Seq::<AccessV>::empty();
            if tok_at(ts, i) == Tok::Quote {
                let i = i + 1;
                match onward(p_lhs_accesses(ts, i, none, g), i, ts.len() as int) {
                    Err(e) => Err(e),
                    Ok((accesses, i)) => {
                        Ok((LhsV { base, next: true, accesses, span: span_from(ts, i, start) }, i))
                    },
                }
            } else {
                match onward(p_lhs_accesses(ts, i, none, g), i, ts.len() as int) {
                    Err(e) => Err(e),
                    Ok((accesses, i)) => {
                        Ok((LhsV { base, next: false, accesses, span: span_from(ts, i, start) }, i))
                    },
                }
            }
        },
    }
}

/// The accesses of a left side.
#[verifier::opaque]
pub open spec fn p_lhs_accesses(ts: Seq<TokenV>, i: int, acc: Seq<AccessV>, g: Grammar) -> PS<Seq<AccessV>>
    decreases ts.len() - i,
{
    if tok_at(ts, i) == Tok::LBrack {
        let i = i + 1;
        match ahead((g.expr)(i, 0), i, ts.len() as int) {
            Err(e) => Err(e),
            Ok((e, i)) => {
                if tok_at(ts, i) != Tok::RBrack {
                    Err(expected(ts, i, "`]'"@))
                } else {
                    let i = i + 1;
                    let acc = acc.push(AccessV::Array(e));
                    p_lhs_accesses(ts, i, acc, g)
                }
            },
        }
    } else {
        if tok_at(ts, i) == Tok::Dot {
            let i = i + 1;
            if tok_at(ts, i) == Tok::Numeral {
                let t = ts[i];
                let i = i + 1;
                match tuple_index(t.text) {
                    None => Err(Fail { pos: t.span.start, msg: "invalid tuple index"@ }),
                    Some(n) => {
                        let acc = acc.push(AccessV::Tuple(n));
                        p_lhs_accesses(ts, i, acc, g)
                    },
                }
            } else {
                match ahead(p_ident(ts, i, g), i, ts.len() as int) {
                    Err(e) => Err(e),
                    Ok((id, i)) => {
                        let acc = acc.push(AccessV::Record(id));
                        p_lhs_accesses(ts, i, acc, g)
                    },
                }
            }
        } else {
            Ok((acc, i))
        }
    }
}

/// Definitions and choices with semicolons between them, and possibly one behind the last.
#[verifier::opaque]
pub open spec fn p_def_or_command_plus(
    ts: Seq<TokenV>,
    i: int,
    acc: Seq<DefOrCommandV>,
    g: Grammar
) -> PS<Seq<DefOrCommandV>>
    decreases ts.len() - i,
{
    match ahead(p_def_or_command(ts, i, g), i, ts.len() as int) {
        Err(e) => Err(e),
        Ok((x, i)) => {
            let acc = acc.push(x);
            if tok_at(ts, i) == Tok::Semi {
                let i = i + 1;
                if (tok_at(ts, i) == Tok::Input || tok_at(ts, i) == Tok::Output
                    || tok_at(ts, i) == Tok::Global || tok_at(ts, i) == Tok::Local || tok_at(ts, i) == Tok::Definition
                    || tok_at(ts, i) == Tok::Initialization || tok_at(ts, i) == Tok::Transition
                    || tok_at(ts, i) == Tok::End) {
                    Ok((acc, i))
                } else {
                    p_def_or_command_plus(ts, i, acc, g)
                }
            } else {
                Ok((acc, i))
            }
        },
    }
}

/// A definition, or a choice of commands.
#[verifier::opaque]
pub open spec fn p_def_or_command(ts: Seq<TokenV>, i: int, g: Grammar) -> PS<DefOrCommandV>
{
    let start = start_at(ts, i);
    if tok_at(ts, i) == Tok::LBrack {
        let i = i + 1;
        let none = Seq::<SomeCommandV>::empty();
        match ahead(p_command_list(ts, i, none, g), i, ts.len() as int) {
            Err(e) => Err(e),
            Ok((cmds, i)) => {
                if tok_at(ts, i) != Tok::RBrack {
                    Err(expected(ts, i, "`]'"@))
                } else {
                    let i = i + 1;
                    let early = early_else(cmds, 0);
                    if early is Some {
                        let at = early->0;
                        Err(Fail { pos: at, msg: "Invalid occurrence of ELSE command. ELSE command must be the last command in the command list."@ })
                    } else {
                        Ok((DefOrCommandV::Commands(cmds, span_from(ts, i, start)), i))
                    }
                }
            },
        }
    } else {
        match ahead((g.def)(i), i, ts.len() as int) {
            Err(e) => Err(e),
            Ok((d, i)) => {
                Ok((DefOrCommandV::Def(d), i))
            },
        }
    }
}

/// Commands with `[]` between them.
#[verifier::opaque]
pub open spec fn p_command_list(
    ts: Seq<TokenV>,
    i: int,
    acc: Seq<SomeCommandV>,
    g: Grammar
) -> PS<Seq<SomeCommandV>>
    decreases ts.len() - i,
{
    match ahead(p_some_command(ts, i, g), i, ts.len() as int) {
        Err(e) => Err(e),
        Ok((x, i)) => {
            let acc = acc.push(x);
            if tok_at(ts, i) == Tok::Async {
                let i = i + 1;
                p_command_list(ts, i, acc, g)
            } else {
                Ok((acc, i))
            }
        },
    }
}

/// A command.
#[verifier::opaque]
pub open spec fn p_some_command(ts: Seq<TokenV>, i: int, g: Grammar) -> PS<SomeCommandV>
    decreases ts.len() - i,
{
    let start = start_at(ts, i);
    if tok_at(ts, i) == Tok::LParen && tok_at(ts, i + 1) == Tok::Async {
        let i = i + 1;
        let i = i + 1;
        if tok_at(ts, i) != Tok::LParen {
            Err(expected(ts, i, "`('"@))
        } else {
            let i = i + 1;
            let none = Seq::<VarDeclV>::empty();
            match ahead(p_var_decl_plus(ts, i, none, g), i, ts.len() as int) {
                Err(e) => Err(e),
                Ok((decls, i)) => {
                    if tok_at(ts, i) != Tok::RParen {
                        Err(expected(ts, i, "`)'"@))
                    } else {
                        let i = i + 1;
                        if tok_at(ts, i) != Tok::Colon {
                            Err(expected(ts, i, "`:'"@))
                        } else {
                            let i = i + 1;
                            match ahead(p_some_command(ts, i, g), i, ts.len() as int) {
                                Err(e) => Err(e),
                                Ok((inner, i)) => {
                                    if tok_at(ts, i) != Tok::RParen {
                                        Err(expected(ts, i, "`)'"@))
                                    } else {
                                        let i = i + 1;
                                        if is_else(inner) {
                                            Err(Fail { pos: start, msg: "Invalid multi-command. ELSE commands cannot be nested in multi-commands."@ })
                                        } else {
                                            Ok((SomeCommandV::Multi(decls, Box::new(inner), span_from(ts, i, start)), i))
                                        }
                                    }
                                },
                            }
                        }
                    }
                },
            }
        }
    } else {
        if tok_at(ts, i) == Tok::Identifier && tok_at(ts, i + 1) == Tok::Colon {
            match ahead(p_ident(ts, i, g), i, ts.len() as int) {
                Err(e) => Err(e),
                Ok((id, i)) => {
                    if tok_at(ts, i) != Tok::Colon {
                        Err(expected(ts, i, "`:'"@))
                    } else {
                        let i = i + 1;
                        if tok_at(ts, i) == Tok::LParen && tok_at(ts, i + 1) == Tok::Async {
                            Err(Fail { pos: id.span.start, msg: "Only guarded commands can be labeled. Move the identifier to the nested guarded command."@ })
                        } else {
                            p_guarded(ts, i, start, Some(id), g)
                        }
                    }
                },
            }
        } else {
            p_guarded(ts, i, start, None, g)
        }
    }
}

/// A guarded command behind its label.
#[verifier::opaque]
pub open spec fn p_guarded(
    ts: Seq<TokenV>,
    i: int,
    start: Pos,
    label: Option<IdentV>,
    g: Grammar
) -> PS<SomeCommandV>
{
    match ahead(p_guard(ts, i, g), i, ts.len() as int) {
        Err(e) => Err(e),
        Ok((guard, i)) => {
            if tok_at(ts, i) != Tok::LongArrow {
                Err(expected(ts, i, "`-->'"@))
            } else {
                let i = i + 1;
                let none = Seq::<DefinitionV>::empty();
                match onward(p_assignments_opt(ts, i, none, g), i, ts.len() as int) {
                    Err(e) => Err(e),
                    Ok((assignments, i)) => {
                        let cmd = GuardedCommandV { label, guard, assignments, span: span_from(ts, i, start) };
                        Ok((SomeCommandV::Guarded(cmd), i))
                    },
                }
            }
        },
    }
}

/// A guard, or `ELSE`.
#[verifier::opaque]
pub open spec fn p_guard(ts: Seq<TokenV>, i: int, g: Grammar) -> PS<Option<ExprV>>
{
    if tok_at(ts, i) == Tok::Else {
        let i = i + 1;
        Ok((None, i))
    } else {
        match ahead((g.expr)(i, 0), i, ts.len() as int) {
            Err(e) => Err(e),
            Ok((e, i)) => {
                Ok((Some(e), i))
            },
        }
    }
}

/// The assignments of a command, possibly none.
#[verifier::opaque]
pub open spec fn p_assignments_opt(
    ts: Seq<TokenV>,
    i: int,
    none: Seq<DefinitionV>,
    g: Grammar
) -> PS<Seq<DefinitionV>>
{
    if (tok_at(ts, i) == Tok::Async || tok_at(ts, i) == Tok::RBrack || tok_at(ts, i) == Tok::RParen) {
        Ok((none, i))
    } else {
        p_assignments(ts, i, none, g)
    }
}

/// The assignments of a command, at least one.
#[verifier::opaque]
pub open spec fn p_assignments(
    ts: Seq<TokenV>,
    i: int,
    acc: Seq<DefinitionV>,
    g: Grammar
) -> PS<Seq<DefinitionV>>
    decreases ts.len() - i,
{
    match ahead((g.def)(i), i, ts.len() as int) {
        Err(e) => Err(e),
        Ok((x, i)) => {
            let acc = acc.push(x);
            if tok_at(ts, i) == Tok::Semi {
                let i = i + 1;
                if (tok_at(ts, i) == Tok::Async || tok_at(ts, i) == Tok::RBrack
                    || tok_at(ts, i) == Tok::RParen || tok_at(ts, i) == Tok::Input || tok_at(ts, i) == Tok::Output
                    || tok_at(ts, i) == Tok::Global || tok_at(ts, i) == Tok::Local || tok_at(ts, i) == Tok::Definition
                    || tok_at(ts, i) == Tok::Initialization || tok_at(ts, i) == Tok::Transition
                    || tok_at(ts, i) == Tok::End) {
                    Ok((acc, i))
                } else {
                    p_assignments(ts, i, acc, g)
                }
            } else {
                Ok((acc, i))
            }
        },
    }
}

/// A context.
#[verifier::opaque]
pub open spec fn p_context(ts: Seq<TokenV>, i: int, g: Grammar) -> PS<SalContextV>
{
    let start = start_at(ts, i);
    match ahead(p_ident(ts, i, g), i, ts.len() as int) {
        Err(e) => Err(e),
        Ok((name, i)) => {
            let none = Seq::<CtxParamV>::empty();
            match onward(p_ctx_params(ts, i, none, g), i, ts.len() as int) {
                Err(e) => Err(e),
                Ok((params, i)) => {
                    if tok_at(ts, i) != Tok::Colon {
                        Err(expected(ts, i, "`:'"@))
                    } else {
                        let i = i + 1;
                        if tok_at(ts, i) != Tok::Context {
                            Err(expected(ts, i, "CONTEXT"@))
                        } else {
                            let i = i + 1;
                            if tok_at(ts, i) != Tok::Eq {
                                Err(expected(ts, i, "`='"@))
                            } else {
                                let i = i + 1;
                                if tok_at(ts, i) != Tok::Begin {
                                    Err(expected(ts, i, "BEGIN"@))
                                } else {
                                    let i = i + 1;
                                    let nodecls = Seq::<DeclV>::empty();
                                    match onward(p_declarations(ts, i, nodecls, g), i, ts.len() as int) {
                                        Err(e) => Err(e),
                                        Ok((decls, i)) => {
                                            if decls.len() == 0 {
                                                Err(Fail { pos: start_at(ts, i), msg: "Invalid empty context."@ })
                                            } else {
                                                if tok_at(ts, i) != Tok::End {
                                                    Err(expected(ts, i, "END"@))
                                                } else {
                                                    let i = i + 1;
                                                    if !(tok_at(ts, i) == Tok::Eof) {
                                                        Err(Fail { pos: start_at(ts, i), msg: "Unexpected token \""@
                                                            + text_at(ts, i) + "\" after end of context."@ })
                                                    } else {
                                                        Ok((SalContextV { name, params, decls, span: span_from(ts, i, start) }, i))
                                                    }
                                                }
                                            }
                                        },
                                    }
                                }
                            }
                        }
                    }
                },
            }
        },
    }
}

/// The formal parameters of a context, where it has any.
#[verifier::opaque]
pub open spec fn p_ctx_params(ts: Seq<TokenV>, i: int, none: Seq<CtxParamV>, g: Grammar) -> PS<Seq<CtxParamV>>
{
    if tok_at(ts, i) == Tok::LBrace && tok_at(ts, i + 1) == Tok::Semi {
        let i = i + 1;
        let i = i + 1;
        p_ctx_param_list(ts, i, none, g)
    } else {
        if tok_at(ts, i) == Tok::LBrace {
            let i = i + 1;
            p_ctx_param_list(ts, i, none, g)
        } else {
            Ok((none, i))
        }
    }
}

/// Formal parameters up to the closing brace.
#[verifier::opaque]
pub open spec fn p_ctx_param_list(
    ts: Seq<TokenV>,
    i: int,
    acc: Seq<CtxParamV>,
    g: Grammar
) -> PS<Seq<CtxParamV>>
    decreases ts.len() - i,
{
    if tok_at(ts, i) == Tok::RBrace {
        let i = i + 1;
        Ok((acc, i))
    } else {
        match ahead(p_ctx_param(ts, i, g), i, ts.len() as int) {
            Err(e) => Err(e),
            Ok((x, i)) => {
                let acc = acc.push(x);
                if (tok_at(ts, i) == Tok::Comma || tok_at(ts, i) == Tok::Semi) {
                    let i = i + 1;
                    p_ctx_param_list(ts, i, acc, g)
                } else {
                    if tok_at(ts, i) != Tok::RBrace {
                        Err(expected(ts, i, "`}'"@))
                    } else {
                        let i = i + 1;
                        Ok((acc, i))
                    }
                }
            },
        }
    }
}

/// A group of formal parameters.
#[verifier::opaque]
pub open spec fn p_ctx_param(ts: Seq<TokenV>, i: int, g: Grammar) -> PS<CtxParamV>
{
    let none = Seq::<IdentV>::empty();
    match ahead(p_ident_list(ts, i, none, g), i, ts.len() as int) {
        Err(e) => Err(e),
        Ok((ids, i)) => {
            if tok_at(ts, i) != Tok::Colon {
                Err(expected(ts, i, "`:'"@))
            } else {
                let i = i + 1;
                if tok_at(ts, i) == Tok::Type {
                    let i = i + 1;
                    Ok((CtxParamV::Types(ids), i))
                } else {
                    match ahead((g.ty)(i), i, ts.len() as int) {
                        Err(e) => Err(e),
                        Ok((ty, i)) => {
                            Ok((CtxParamV::Vars(ids, ty), i))
                        },
                    }
                }
            }
        },
    }
}

/// The declarations of a context, up to its end.
#[verifier::opaque]
pub open spec fn p_declarations(ts: Seq<TokenV>, i: int, acc: Seq<DeclV>, g: Grammar) -> PS<Seq<DeclV>>
    decreases ts.len() - i,
{
    if tok_at(ts, i) == Tok::End {
        Ok((acc, i))
    } else {
        match ahead(p_declaration(ts, i, g), i, ts.len() as int) {
            Err(e) => Err(e),
            Ok((x, i)) => {
                let acc = acc.push(x);
                if tok_at(ts, i) != Tok::Semi {
                    Err(expected(ts, i, "`;'"@))
                } else {
                    let i = i + 1;
                    p_declarations(ts, i, acc, g)
                }
            },
        }
    }
}

/// A declaration.
#[verifier::opaque]
pub open spec fn p_declaration(ts: Seq<TokenV>, i: int, g: Grammar) -> PS<DeclV>
{
    if tok_at(ts, i) == Tok::Importing {
        let i = i + 1;
        match ahead(p_context_name(ts, i, g), i, ts.len() as int) {
            Err(e) => Err(e),
            Ok((ctx, i)) => {
                let none = Seq::<(IdentV, IdentV)>::empty();
                if tok_at(ts, i) == Tok::With {
                    let i = i + 1;
                    match ahead(p_import_renames(ts, i, none, g), i, ts.len() as int) {
                        Err(e) => Err(e),
                        Ok((renames, i)) => {
                            Ok((DeclV::Import { ctx, renames }, i))
                        },
                    }
                } else {
                    Ok((DeclV::Import { ctx, renames: none }, i))
                }
            },
        }
    } else {
        match ahead(p_ident(ts, i, g), i, ts.len() as int) {
            Err(e) => Err(e),
            Ok((name, i)) => {
                if tok_at(ts, i) == Tok::LParen {
                    let i = i + 1;
                    let none = Seq::<VarDeclV>::empty();
                    match ahead(p_var_decl_plus(ts, i, none, g), i, ts.len() as int) {
                        Err(e) => Err(e),
                        Ok((args, i)) => {
                            if tok_at(ts, i) != Tok::RParen {
                                Err(expected(ts, i, "`)'"@))
                            } else {
                                let i = i + 1;
                                if tok_at(ts, i) != Tok::Colon {
                                    Err(expected(ts, i, "`:'"@))
                                } else {
                                    let i = i + 1;
                                    match ahead((g.ty)(i), i, ts.len() as int) {
                                        Err(e) => Err(e),
                                        Ok((ty, i)) => {
                                            match onward(p_definiens(ts, i, g), i, ts.len() as int) {
                                                Err(e) => Err(e),
                                                Ok((value, i)) => {
                                                    Ok((DeclV::Constant { name, args, ty, value }, i))
                                                },
                                            }
                                        },
                                    }
                                }
                            }
                        },
                    }
                } else {
                    if tok_at(ts, i) == Tok::LBrack {
                        let i = i + 1;
                        let none = Seq::<VarDeclV>::empty();
                        match ahead(p_var_decl_plus(ts, i, none, g), i, ts.len() as int) {
                            Err(e) => Err(e),
                            Ok((params, i)) => {
                                if tok_at(ts, i) != Tok::RBrack {
                                    Err(expected(ts, i, "`]'"@))
                                } else {
                                    let i = i + 1;
                                    if tok_at(ts, i) != Tok::Colon {
                                        Err(expected(ts, i, "`:'"@))
                                    } else {
                                        let i = i + 1;
                                        if tok_at(ts, i) != Tok::Module {
                                            Err(expected(ts, i, "MODULE"@))
                                        } else {
                                            let i = i + 1;
                                            if tok_at(ts, i) != Tok::Eq {
                                                Err(expected(ts, i, "`='"@))
                                            } else {
                                                let i = i + 1;
                                                match ahead((g.module)(i), i, ts.len() as int) {
                                                    Err(e) => Err(e),
                                                    Ok((body, i)) => {
                                                        Ok((DeclV::Module { name, params, body }, i))
                                                    },
                                                }
                                            }
                                        }
                                    }
                                }
                            },
                        }
                    } else {
                        if !(tok_at(ts, i) == Tok::Colon) {
                            Err(Fail { pos: start_at(ts, i), msg: "Unexpected token \""@
                                + text_at(ts, i) + "\" in declaration."@ })
                        } else {
                            let i = i + 1;
                            if tok_at(ts, i) == Tok::Type {
                                let i = i + 1;
                                if tok_at(ts, i) == Tok::Eq {
                                    let i = i + 1;
                                    match ahead(p_type_def(ts, i, g), i, ts.len() as int) {
                                        Err(e) => Err(e),
                                        Ok((def, i)) => {
                                            Ok((DeclV::Type { name, def: Some(def) }, i))
                                        },
                                    }
                                } else {
                                    Ok((DeclV::Type { name, def: None }, i))
                                }
                            } else {
                                if tok_at(ts, i) == Tok::Context {
                                    let i = i + 1;
                                    if tok_at(ts, i) != Tok::Eq {
                                        Err(expected(ts, i, "`='"@))
                                    } else {
                                        let i = i + 1;
                                        match ahead(p_context_name(ts, i, g), i, ts.len() as int) {
                                            Err(e) => Err(e),
                                            Ok((ctx, i)) => {
                                                Ok((DeclV::Context { name, ctx }, i))
                                            },
                                        }
                                    }
                                } else {
                                    if tok_at(ts, i) == Tok::Module {
                                        let i = i + 1;
                                        if tok_at(ts, i) != Tok::Eq {
                                            Err(expected(ts, i, "`='"@))
                                        } else {
                                            let i = i + 1;
                                            match ahead((g.module)(i), i, ts.len() as int) {
                                                Err(e) => Err(e),
                                                Ok((body, i)) => {
                                                    let none = Seq::<VarDeclV>::empty();
                                                    Ok((DeclV::Module { name, params: none, body }, i))
                                                },
                                            }
                                        }
                                    } else {
                                        if (tok_at(ts, i) == Tok::Theorem
                                            || tok_at(ts, i) == Tok::Lemma || tok_at(ts, i) == Tok::Claim || tok_at(ts, i) == Tok::Obligation) {
                                            let form = if tok_at(ts, i)
                                                == Tok::Theorem { AssertionForm::Theorem } else if tok_at(ts, i)
                                                == Tok::Lemma { AssertionForm::Lemma } else if tok_at(ts, i)
                                                == Tok::Claim { AssertionForm::Claim } else { AssertionForm::Obligation };
                                            let i = i + 1;
                                            match ahead((g.module)(i), i, ts.len() as int) {
                                                Err(e) => Err(e),
                                                Ok((m, i)) => {
                                                    if tok_at(ts, i) == Tok::Turnstile {
                                                        let i = i + 1;
                                                        match ahead((g.expr)(i, 0), i, ts.len() as int) {
                                                            Err(e) => Err(e),
                                                            Ok((formula, i)) => {
                                                                let body = AssertionExprV::Models { module: m, formula };
                                                                Ok((DeclV::Assertion { name, form, body }, i))
                                                            },
                                                        }
                                                    } else {
                                                        if tok_at(ts, i) != Tok::Implements {
                                                            Err(expected(ts, i, "|- or IMPLEMENTS"@))
                                                        } else {
                                                            let i = i + 1;
                                                            match ahead((g.module)(i), i, ts.len() as int) {
                                                                Err(e) => Err(e),
                                                                Ok((abstract_, i)) => {
                                                                    let body = AssertionExprV::Implements { concrete: m, abstract_ };
                                                                    Ok((DeclV::Assertion { name, form, body }, i))
                                                                },
                                                            }
                                                        }
                                                    }
                                                },
                                            }
                                        } else {
                                            match ahead((g.ty)(i), i, ts.len() as int) {
                                                Err(e) => Err(e),
                                                Ok((ty, i)) => {
                                                    match onward(p_definiens(ts, i, g), i, ts.len() as int) {
                                                        Err(e) => Err(e),
                                                        Ok((value, i)) => {
                                                            let none = Seq::<VarDeclV>::empty();
                                                            Ok((DeclV::Constant { name, args: none, ty, value }, i))
                                                        },
                                                    }
                                                },
                                            }
                                        }
                                    }
                                }
                            }
                        }
                    }
                }
            },
        }
    }
}

/// `= e`, where it is there.
#[verifier::opaque]
pub open spec fn p_definiens(ts: Seq<TokenV>, i: int, g: Grammar) -> PS<Option<ExprV>>
{
    if tok_at(ts, i) == Tok::Eq {
        let i = i + 1;
        match ahead((g.expr)(i, 0), i, ts.len() as int) {
            Err(e) => Err(e),
            Ok((e, i)) => {
                Ok((Some(e), i))
            },
        }
    } else {
        Ok((None, i))
    }
}

/// The renamings of an import.
#[verifier::opaque]
pub open spec fn p_import_renames(
    ts: Seq<TokenV>,
    i: int,
    acc: Seq<(IdentV, IdentV)>,
    g: Grammar
) -> PS<Seq<(IdentV, IdentV)>>
    decreases ts.len() - i,
{
    match ahead(p_ident(ts, i, g), i, ts.len() as int) {
        Err(e) => Err(e),
        Ok((a, i)) => {
            if tok_at(ts, i) != Tok::To {
                Err(expected(ts, i, "TO"@))
            } else {
                let i = i + 1;
                match ahead(p_ident(ts, i, g), i, ts.len() as int) {
                    Err(e) => Err(e),
                    Ok((b, i)) => {
                        let acc = acc.push((a, b));
                        if tok_at(ts, i) == Tok::Comma {
                            let i = i + 1;
                            p_import_renames(ts, i, acc, g)
                        } else {
                            Ok((acc, i))
                        }
                    },
                }
            }
        },
    }
}

/// A context with actual parameters.
#[verifier::opaque]
pub open spec fn p_context_name(ts: Seq<TokenV>, i: int, g: Grammar) -> PS<ContextNameV>
{
    let start = start_at(ts, i);
    match ahead(p_ident(ts, i, g), i, ts.len() as int) {
        Err(e) => Err(e),
        Ok((name, i)) => {
            let none = Seq::<ActualV>::empty();
            if tok_at(ts, i) == Tok::LBrace {
                let i = i + 1;
                match onward(p_actuals(ts, i, none, g), i, ts.len() as int) {
                    Err(e) => Err(e),
                    Ok((actuals, i)) => {
                        if tok_at(ts, i) != Tok::RBrace {
                            Err(expected(ts, i, "`}'"@))
                        } else {
                            let i = i + 1;
                            Ok((ContextNameV { name, actuals, span: span_from(ts, i, start) }, i))
                        }
                    },
                }
            } else {
                Ok((ContextNameV { name, actuals: none, span: span_from(ts, i, start) }, i))
            }
        },
    }
}

/// The definition of a type.
#[verifier::opaque]
pub open spec fn p_type_def(ts: Seq<TokenV>, i: int, g: Grammar) -> PS<TypeDefV>
{
    if tok_at(ts, i) == Tok::LBrace && tok_at(ts, i + 1) == Tok::Identifier && tok_at(ts, i + 2) == Tok::Colon {
        match ahead((g.ty)(i), i, ts.len() as int) {
            Err(e) => Err(e),
            Ok((t, i)) => {
                Ok((TypeDefV::Type(t), i))
            },
        }
    } else {
        if tok_at(ts, i) == Tok::LBrace {
            let i = i + 1;
            let none = Seq::<IdentV>::empty();
            match ahead(p_ident_list(ts, i, none, g), i, ts.len() as int) {
                Err(e) => Err(e),
                Ok((ids, i)) => {
                    if tok_at(ts, i) != Tok::RBrace {
                        Err(expected(ts, i, "`}'"@))
                    } else {
                        let i = i + 1;
                        Ok((TypeDefV::Scalar(ids), i))
                    }
                },
            }
        } else {
            if tok_at(ts, i) == Tok::Datatype {
                let i = i + 1;
                let none = Seq::<ConstructorV>::empty();
                match ahead(p_constructor_list(ts, i, none, g), i, ts.len() as int) {
                    Err(e) => Err(e),
                    Ok((ctors, i)) => {
                        if tok_at(ts, i) != Tok::End {
                            Err(expected(ts, i, "END"@))
                        } else {
                            let i = i + 1;
                            Ok((TypeDefV::Datatype(ctors), i))
                        }
                    },
                }
            } else {
                if tok_at(ts, i) == Tok::Scalarset {
                    let i = i + 1;
                    if tok_at(ts, i) != Tok::LParen {
                        Err(expected(ts, i, "`('"@))
                    } else {
                        let i = i + 1;
                        match ahead((g.expr)(i, 0), i, ts.len() as int) {
                            Err(e) => Err(e),
                            Ok((e, i)) => {
                                if tok_at(ts, i) != Tok::RParen {
                                    Err(expected(ts, i, "`)'"@))
                                } else {
                                    let i = i + 1;
                                    Ok((TypeDefV::Scalarset(e), i))
                                }
                            },
                        }
                    }
                } else {
                    if tok_at(ts, i) == Tok::Ringset {
                        let i = i + 1;
                        if tok_at(ts, i) != Tok::LParen {
                            Err(expected(ts, i, "`('"@))
                        } else {
                            let i = i + 1;
                            match ahead((g.expr)(i, 0), i, ts.len() as int) {
                                Err(e) => Err(e),
                                Ok((e, i)) => {
                                    if tok_at(ts, i) != Tok::RParen {
                                        Err(expected(ts, i, "`)'"@))
                                    } else {
                                        let i = i + 1;
                                        Ok((TypeDefV::Ringset(e), i))
                                    }
                                },
                            }
                        }
                    } else {
                        match ahead((g.ty)(i), i, ts.len() as int) {
                            Err(e) => Err(e),
                            Ok((t, i)) => {
                                Ok((TypeDefV::Type(t), i))
                            },
                        }
                    }
                }
            }
        }
    }
}

/// A constructor of a datatype.
#[verifier::opaque]
pub open spec fn p_constructor(ts: Seq<TokenV>, i: int, g: Grammar) -> PS<ConstructorV>
{
    match ahead(p_ident(ts, i, g), i, ts.len() as int) {
        Err(e) => Err(e),
        Ok((name, i)) => {
            let none = Seq::<VarDeclV>::empty();
            if tok_at(ts, i) == Tok::LParen {
                let i = i + 1;
                match ahead(p_var_decl_plus(ts, i, none, g), i, ts.len() as int) {
                    Err(e) => Err(e),
                    Ok((accessors, i)) => {
                        if tok_at(ts, i) != Tok::RParen {
                            Err(expected(ts, i, "`)'"@))
                        } else {
                            let i = i + 1;
                            Ok((ConstructorV { name, accessors }, i))
                        }
                    },
                }
            } else {
                Ok((ConstructorV { name, accessors: none }, i))
            }
        },
    }
}

/// Constructors with commas between them.
#[verifier::opaque]
pub open spec fn p_constructor_list(
    ts: Seq<TokenV>,
    i: int,
    acc: Seq<ConstructorV>,
    g: Grammar
) -> PS<Seq<ConstructorV>>
    decreases ts.len() - i,
{
    match ahead(p_constructor(ts, i, g), i, ts.len() as int) {
        Err(e) => Err(e),
        Ok((x, i)) => {
            let acc = acc.push(x);
            if tok_at(ts, i) == Tok::Comma {
                let i = i + 1;
                p_constructor_list(ts, i, acc, g)
            } else {
                Ok((acc, i))
            }
        },
    }
}

impl Parser {
    /// An identifier.
    fn ident(&mut self, Ghost(lo): Ghost<int>) -> (r: Result<Ident, ParseError>)
        requires
            old(self).wf(),
            lo <= old(self).pos,
        ensures
            final(self).wf(),
            final(self).ts() == old(self).ts(),
            match (r, p_ident(old(self).ts(), old(self).pos as int, grammar(old(self).ts(), lo))) {
                (Ok(v), Ok((m, k))) => v.model() == m && final(self).pos == k && old(self).pos < k,
                (Err(e), Err(f)) => e.model() == f,
                _ => false,
            },
        decreases old(self).ts().len() - old(self).pos, 0nat,
    {
        proof {
            reveal(p_ident);
        }
        if self.cur() != Tok::Identifier {
            return Err(self.expected("an identifier"));
        }
        let t = self.take();
        return Ok(Ident { name: t.text, span: t.span });
    }

    /// Identifiers with commas between them.
    fn ident_list(&mut self, acc0: Vec<Ident>, Ghost(lo): Ghost<int>) -> (r: Result<Vec<Ident>, ParseError>)
        requires
            old(self).wf(),
            lo < old(self).pos,
        ensures
            final(self).wf(),
            final(self).ts() == old(self).ts(),
            match (
                r,
                p_ident_list(
                    old(self).ts(),
                    old(self).pos as int,
                    ident_models(acc0@),
                    grammar(old(self).ts(), lo)
                )
            ) {
                (Ok(v), Ok((m, k))) => ident_models(v@) == m && final(self).pos == k && old(self).pos < k,
                (Err(e), Err(f)) => e.model() == f,
                _ => false,
            },
        decreases old(self).ts().len() - old(self).pos, 1nat,
    {
        let mut acc = acc0;
        loop
            invariant
                self.wf(),
                self.ts() == old(self).ts(),
                lo < old(self).pos <= self.pos,
                p_ident_list(
                    old(self).ts(),
                    old(self).pos as int,
                    ident_models(acc0@),
                    grammar(old(self).ts(), lo)
                ) == p_ident_list(
                    old(self).ts(),
                    self.pos as int, ident_models(acc@),
                    grammar(old(self).ts(), lo),
                ),
            decreases self.ts().len() - self.pos,
        {
            proof {
                reveal_with_fuel(p_ident_list, 1);
            }
            let x = match self.ident(Ghost(lo)) {
                Ok(x) => x,
                Err(e) => {
                    return Err(e);
                },
            };
            let item = x;
            let ghost pushed = item.model();
            let ghost before = acc@;
            acc.push(item);
            assert(ident_models(acc@) =~= ident_models(before).push(pushed));
            if self.cur() == Tok::Comma {
                self.bump();
                continue;
            }
            return Ok(acc);
        }
    }

    /// A name, possibly of another context.
    fn name(&mut self, Ghost(lo): Ghost<int>) -> (r: Result<Name, ParseError>)
        requires
            old(self).wf(),
            lo <= old(self).pos,
        ensures
            final(self).wf(),
            final(self).ts() == old(self).ts(),
            match (r, p_name(old(self).ts(), old(self).pos as int, grammar(old(self).ts(), lo))) {
                (Ok(v), Ok((m, k))) => v.model() == m && final(self).pos == k && old(self).pos < k,
                (Err(e), Err(f)) => e.model() == f,
                _ => false,
            },
        decreases old(self).ts().len() - old(self).pos, 1nat,
    {
        proof {
            reveal(p_name);
        }
        let start = self.start();
        let first = match self.ident(Ghost(lo)) {
            Ok(x) => x,
            Err(e) => {
                return Err(e);
            },
        };
        if self.cur() == Tok::LBrace && self.qualified_name_follows() {
            self.bump();
            let none: Vec<Actual> = Vec::new();
            assert(actual_models(none@) =~= Seq::empty());
            let actuals = match self.actuals(none, Ghost(lo)) {
                Ok(x) => x,
                Err(e) => {
                    return Err(e);
                },
            };
            if self.cur() != Tok::RBrace {
                return Err(self.expected("`}'"));
            }
            self.bump();
            let ctx_span = self.span_from(start);
            if self.cur() != Tok::Bang {
                return Err(self.expected("`!'"));
            }
            self.bump();
            let id = match self.ident(Ghost(lo)) {
                Ok(x) => x,
                Err(e) => {
                    return Err(e);
                },
            };
            let ctx = ContextName { name: first, actuals, span: ctx_span };
            let ghost ctx_value = ctx.model();
            return Ok(Name { ctx: Some(ctx), id, span: self.span_from(start) });
        }
        if self.cur() == Tok::Bang {
            self.bump();
            let id = match self.ident(Ghost(lo)) {
                Ok(x) => x,
                Err(e) => {
                    return Err(e);
                },
            };
            let none: Vec<Actual> = Vec::new();
            assert(actual_models(none@) =~= Seq::empty());
            let first_span = first.span;
            let ctx = ContextName { name: first, actuals: none, span: first_span };
            let ghost ctx_value = ctx.model();
            return Ok(Name { ctx: Some(ctx), id, span: self.span_from(start) });
        }
        let first_span = first.span;
        return Ok(Name { ctx: None, id: first, span: first_span });
    }

    /// The actual parameters of a context: `[;] [actual {(,|;) actual}] [;]`.
    fn actuals(&mut self, none: Vec<Actual>, Ghost(lo): Ghost<int>) -> (r: Result<Vec<Actual>, ParseError>)
        requires
            old(self).wf(),
            lo < old(self).pos,
        ensures
            final(self).wf(),
            final(self).ts() == old(self).ts(),
            match (
                r,
                p_actuals(
                    old(self).ts(),
                    old(self).pos as int,
                    actual_models(none@),
                    grammar(old(self).ts(), lo)
                )
            ) {
                (Ok(v), Ok((m, k))) => actual_models(v@) == m && final(self).pos == k && old(self).pos <= k,
                (Err(e), Err(f)) => e.model() == f,
                _ => false,
            },
        decreases old(self).ts().len() - old(self).pos, 17nat,
    {
        proof {
            reveal(p_actuals);
        }
        if self.cur() == Tok::Semi {
            self.bump();
            return self.actuals_body(none, Ghost(lo));
        }
        return self.actuals_body(none, Ghost(lo));
    }

    /// The actual parameters after an optional semicolon; of none, with an optional semicolon again.
    fn actuals_body(&mut self, none: Vec<Actual>, Ghost(lo): Ghost<int>) -> (r: Result<Vec<Actual>, ParseError>)
        requires
            old(self).wf(),
            lo < old(self).pos,
        ensures
            final(self).wf(),
            final(self).ts() == old(self).ts(),
            match (
                r,
                p_actuals_body(
                    old(self).ts(),
                    old(self).pos as int,
                    actual_models(none@),
                    grammar(old(self).ts(), lo)
                )
            ) {
                (Ok(v), Ok((m, k))) => actual_models(v@) == m && final(self).pos == k && old(self).pos <= k,
                (Err(e), Err(f)) => e.model() == f,
                _ => false,
            },
        decreases old(self).ts().len() - old(self).pos, 16nat,
    {
        proof {
            reveal(p_actuals_body);
        }
        if self.cur() == Tok::RBrace {
            return Ok(none);
        }
        if self.cur() == Tok::Semi && self.look(1) == Tok::RBrace {
            self.bump();
            return Ok(none);
        }
        return self.actual_list(none, Ghost(lo));
    }

    /// Actual parameters, at least one.
    fn actual_list(&mut self, acc0: Vec<Actual>, Ghost(lo): Ghost<int>) -> (r: Result<Vec<Actual>, ParseError>)
        requires
            old(self).wf(),
            lo < old(self).pos,
        ensures
            final(self).wf(),
            final(self).ts() == old(self).ts(),
            match (
                r,
                p_actual_list(
                    old(self).ts(),
                    old(self).pos as int,
                    actual_models(acc0@),
                    grammar(old(self).ts(), lo)
                )
            ) {
                (Ok(v), Ok((m, k))) => actual_models(v@) == m && final(self).pos == k && old(self).pos < k,
                (Err(e), Err(f)) => e.model() == f,
                _ => false,
            },
        decreases old(self).ts().len() - old(self).pos, 15nat,
    {
        let mut acc = acc0;
        loop
            invariant
                self.wf(),
                self.ts() == old(self).ts(),
                lo < old(self).pos <= self.pos,
                p_actual_list(
                    old(self).ts(),
                    old(self).pos as int,
                    actual_models(acc0@),
                    grammar(old(self).ts(), lo)
                ) == p_actual_list(
                    old(self).ts(),
                    self.pos as int, actual_models(acc@),
                    grammar(old(self).ts(), lo),
                ),
            decreases self.ts().len() - self.pos,
        {
            proof {
                reveal_with_fuel(p_actual_list, 1);
            }
            let x = match self.actual(Ghost(lo)) {
                Ok(x) => x,
                Err(e) => {
                    return Err(e);
                },
            };
            let item = x;
            let ghost pushed = item.model();
            let ghost before = acc@;
            acc.push(item);
            assert(actual_models(acc@) =~= actual_models(before).push(pushed));
            if self.cur() == Tok::Comma {
                self.bump();
                continue;
            }
            if self.cur() == Tok::Semi {
                self.bump();
                if self.cur() == Tok::RBrace {
                    return Ok(acc);
                }
                continue;
            }
            return Ok(acc);
        }
    }

    /// An actual parameter: a composite type where there is one, otherwise an expression.
    fn actual(&mut self, Ghost(lo): Ghost<int>) -> (r: Result<Actual, ParseError>)
        requires
            old(self).wf(),
            lo < old(self).pos,
        ensures
            final(self).wf(),
            final(self).ts() == old(self).ts(),
            match (r, p_actual(old(self).ts(), old(self).pos as int, grammar(old(self).ts(), lo))) {
                (Ok(v), Ok((m, k))) => v.model() == m && final(self).pos == k && old(self).pos < k,
                (Err(e), Err(f)) => e.model() == f,
                _ => false,
            },
        decreases old(self).ts().len() - old(self).pos, 14nat,
    {
        proof {
            reveal(p_actual);
        }
        if (self.cur() == Tok::LBrack || self.cur() == Tok::RecTypeS || self.cur() == Tok::Array
            || self.cur() == Tok::StateType) {
            let p: usize = self.pos;
            match self.type_inner(Ghost(lo)) {
                Ok(t) => {
                    return Ok(Actual::Type(t));
                },
                Err(_) => {
                    self.pos = p;
                    let e = match self.expr_bp(0, Ghost(lo)) {
                        Ok(x) => x,
                        Err(e) => {
                            return Err(e);
                        },
                    };
                    return Ok(Actual::Expr(e));
                },
            }
        }
        let e = match self.expr_bp(0, Ghost(lo)) {
            Ok(x) => x,
            Err(e) => {
                return Err(e);
            },
        };
        return Ok(Actual::Expr(e));
    }

    /// A type.
    fn type_inner(&mut self, Ghost(lo): Ghost<int>) -> (r: Result<Type, ParseError>)
        requires
            old(self).wf(),
            lo < old(self).pos,
        ensures
            final(self).wf(),
            final(self).ts() == old(self).ts(),
            match (r, (grammar(old(self).ts(), lo).ty)(old(self).pos as int)) {
                (Ok(v), Ok((m, k))) => v.model() == m && final(self).pos == k && old(self).pos < k,
                (Err(e), Err(f)) => e.model() == f,
                _ => false,
            },
        decreases old(self).ts().len() - old(self).pos, 3nat,
    {
        proof {
            reveal_with_fuel(p_type_expr, 1);
            grammar_rules(self.ts(), lo, self.pos as int);
        }
        let ghost lo = self.pos as int;
        let start = self.start();
        if self.cur() == Tok::Identifier {
            let name = match self.name(Ghost(lo)) {
                Ok(x) => x,
                Err(e) => {
                    return Err(e);
                },
            };
            let span = name.span;
            return Ok(mk_type(TypeKind::Name(name), span));
        }
        if self.cur() == Tok::LBrace {
            self.bump();
            let var = match self.ident(Ghost(lo)) {
                Ok(x) => x,
                Err(e) => {
                    return Err(e);
                },
            };
            if self.cur() != Tok::Colon {
                return Err(self.expected("`:'"));
            }
            self.bump();
            let ty = match self.type_inner(Ghost(lo)) {
                Ok(x) => x,
                Err(e) => {
                    return Err(e);
                },
            };
            if self.cur() != Tok::VBar {
                return Err(self.expected("`|'"));
            }
            self.bump();
            let pred = match self.expr_bp(0, Ghost(lo)) {
                Ok(x) => x,
                Err(e) => {
                    return Err(e);
                },
            };
            if self.cur() != Tok::RBrace {
                return Err(self.expected("`}'"));
            }
            self.bump();
            let span = self.span_from(start);
            let sp = SetPred { var, ty, pred, span };
            let ghost sp_value = sp.model();
            return Ok(mk_type(TypeKind::Subtype(Box::new(sp)), span));
        }
        return self.comp_type_expr(Ghost(lo));
    }

    /// A composite type.
    fn comp_type_expr(&mut self, Ghost(lo): Ghost<int>) -> (r: Result<Type, ParseError>)
        requires
            old(self).wf(),
            lo <= old(self).pos,
        ensures
            final(self).wf(),
            final(self).ts() == old(self).ts(),
            match (r, p_comp_type_expr(old(self).ts(), old(self).pos as int, grammar(old(self).ts(), lo))) {
                (Ok(v), Ok((m, k))) => v.model() == m && final(self).pos == k && old(self).pos < k,
                (Err(e), Err(f)) => e.model() == f,
                _ => false,
            },
        decreases old(self).ts().len() - old(self).pos, 2nat,
    {
        proof {
            reveal(p_comp_type_expr);
        }
        let start = self.start();
        if self.cur() == Tok::LBrack {
            self.bump();
            let p: usize = self.pos;
            match self.expr_bp(0, Ghost(lo)) {
                Ok(low) => {
                    if self.cur() == Tok::DotDot {
                        self.bump();
                        let hi = match self.expr_bp(0, Ghost(lo)) {
                            Ok(x) => x,
                            Err(e) => {
                                return Err(e);
                            },
                        };
                        if self.cur() != Tok::RBrack {
                            return Err(self.expected("`]'"));
                        }
                        self.bump();
                        return Ok(mk_type(TypeKind::Subrange(Box::new(low), Box::new(hi)), self.span_from(start)));
                    }
                    self.pos = p;
                    return self.bracket_type(start, Ghost(lo));
                },
                Err(_) => {
                    self.pos = p;
                    return self.bracket_type(start, Ghost(lo));
                },
            }
        }
        if self.cur() == Tok::Array {
            self.bump();
            let idx = match self.type_inner(Ghost(lo)) {
                Ok(x) => x,
                Err(e) => {
                    return Err(e);
                },
            };
            if self.cur() != Tok::Of {
                return Err(self.expected("OF"));
            }
            self.bump();
            let elem = match self.type_inner(Ghost(lo)) {
                Ok(x) => x,
                Err(e) => {
                    return Err(e);
                },
            };
            return Ok(mk_type(TypeKind::Array(Box::new(idx), Box::new(elem)), self.span_from(start)));
        }
        if self.cur() == Tok::RecTypeS {
            self.bump();
            let none: Vec<FieldDecl> = Vec::new();
            assert(field_decl_models(none@) =~= Seq::empty());
            let fields = match self.field_list(none, Ghost(lo)) {
                Ok(x) => x,
                Err(e) => {
                    return Err(e);
                },
            };
            if self.cur() != Tok::RecTypeE {
                return Err(self.expected("`#]'"));
            }
            self.bump();
            return Ok(mk_type(TypeKind::Record(fields), self.span_from(start)));
        }
        if self.cur() == Tok::StateType {
            self.bump();
            if self.cur() != Tok::LParen {
                return Err(self.expected("`('"));
            }
            self.bump();
            let m = match self.module_inner(Ghost(lo)) {
                Ok(x) => x,
                Err(e) => {
                    return Err(e);
                },
            };
            if self.cur() != Tok::RParen {
                return Err(self.expected("`)'"));
            }
            self.bump();
            return Ok(mk_type(TypeKind::State(Box::new(m)), self.span_from(start)));
        }
        return Err(self.unexpected("Type expected, found \"", "\"."));
    }

    /// A tuple or function type after its bracket.
    fn bracket_type(&mut self, start: Pos, Ghost(lo): Ghost<int>) -> (r: Result<Type, ParseError>)
        requires
            old(self).wf(),
            lo < old(self).pos,
        ensures
            final(self).wf(),
            final(self).ts() == old(self).ts(),
            match (
                r,
                p_bracket_type(old(self).ts(), old(self).pos as int, start, grammar(old(self).ts(), lo))
            ) {
                (Ok(v), Ok((m, k))) => v.model() == m && final(self).pos == k && old(self).pos < k,
                (Err(e), Err(f)) => e.model() == f,
                _ => false,
            },
        decreases old(self).ts().len() - old(self).pos, 5nat,
    {
        proof {
            reveal(p_bracket_type);
        }
        let none: Vec<Type> = Vec::new();
        assert(type_models(none@) =~= Seq::empty());
        let tys = match self.type_list(none, Ghost(lo)) {
            Ok(x) => x,
            Err(e) => {
                return Err(e);
            },
        };
        if self.cur() == Tok::Arrow {
            self.bump();
            if tys.len() != 1 {
                return Err(self.error("Invalid function type, only unary functions are supported in SAL. Use a tuple argument if you desire to provide more than one argument."));
            }
            let dom = only_type(tys);
            let rng = match self.type_inner(Ghost(lo)) {
                Ok(x) => x,
                Err(e) => {
                    return Err(e);
                },
            };
            if self.cur() != Tok::RBrack {
                return Err(self.expected("`]'"));
            }
            self.bump();
            return Ok(mk_type(TypeKind::Function(Box::new(dom), Box::new(rng)), self.span_from(start)));
        }
        if self.cur() != Tok::RBrack {
            return Err(self.expected("`]'"));
        }
        self.bump();
        return Ok(mk_type(TypeKind::Tuple(tys), self.span_from(start)));
    }

    /// Types with commas between them.
    fn type_list(&mut self, acc0: Vec<Type>, Ghost(lo): Ghost<int>) -> (r: Result<Vec<Type>, ParseError>)
        requires
            old(self).wf(),
            lo < old(self).pos,
        ensures
            final(self).wf(),
            final(self).ts() == old(self).ts(),
            match (
                r,
                p_type_list(
                    old(self).ts(),
                    old(self).pos as int,
                    type_models(acc0@),
                    grammar(old(self).ts(), lo)
                )
            ) {
                (Ok(v), Ok((m, k))) => type_models(v@) == m && final(self).pos == k && old(self).pos < k,
                (Err(e), Err(f)) => e.model() == f,
                _ => false,
            },
        decreases old(self).ts().len() - old(self).pos, 4nat,
    {
        let mut acc = acc0;
        loop
            invariant
                self.wf(),
                self.ts() == old(self).ts(),
                lo < old(self).pos <= self.pos,
                p_type_list(
                    old(self).ts(),
                    old(self).pos as int,
                    type_models(acc0@),
                    grammar(old(self).ts(), lo)
                ) == p_type_list(
                    old(self).ts(),
                    self.pos as int, type_models(acc@),
                    grammar(old(self).ts(), lo),
                ),
            decreases self.ts().len() - self.pos,
        {
            proof {
                reveal_with_fuel(p_type_list, 1);
            }
            let x = match self.type_inner(Ghost(lo)) {
                Ok(x) => x,
                Err(e) => {
                    return Err(e);
                },
            };
            let item = x;
            let ghost pushed = item.model();
            let ghost before = acc@;
            acc.push(item);
            assert(type_models(acc@) =~= type_models(before).push(pushed));
            if self.cur() == Tok::Comma {
                self.bump();
                continue;
            }
            return Ok(acc);
        }
    }

    /// A field of a record type.
    fn field_decl(&mut self, Ghost(lo): Ghost<int>) -> (r: Result<FieldDecl, ParseError>)
        requires
            old(self).wf(),
            lo < old(self).pos,
        ensures
            final(self).wf(),
            final(self).ts() == old(self).ts(),
            match (r, p_field_decl(old(self).ts(), old(self).pos as int, grammar(old(self).ts(), lo))) {
                (Ok(v), Ok((m, k))) => v.model() == m && final(self).pos == k && old(self).pos < k,
                (Err(e), Err(f)) => e.model() == f,
                _ => false,
            },
        decreases old(self).ts().len() - old(self).pos, 1nat,
    {
        proof {
            reveal(p_field_decl);
        }
        let name = match self.ident(Ghost(lo)) {
            Ok(x) => x,
            Err(e) => {
                return Err(e);
            },
        };
        if self.cur() != Tok::Colon {
            return Err(self.expected("`:'"));
        }
        self.bump();
        let ty = match self.type_inner(Ghost(lo)) {
            Ok(x) => x,
            Err(e) => {
                return Err(e);
            },
        };
        return Ok(FieldDecl { name, ty });
    }

    /// Fields with commas between them.
    fn field_list(
        &mut self,
        acc0: Vec<FieldDecl>,
        Ghost(lo): Ghost<int>
    ) -> (r: Result<Vec<FieldDecl>, ParseError>)
        requires
            old(self).wf(),
            lo < old(self).pos,
        ensures
            final(self).wf(),
            final(self).ts() == old(self).ts(),
            match (
                r,
                p_field_list(
                    old(self).ts(),
                    old(self).pos as int,
                    field_decl_models(acc0@),
                    grammar(old(self).ts(), lo)
                )
            ) {
                (Ok(v), Ok((m, k))) => field_decl_models(v@) == m && final(self).pos == k && old(self).pos < k,
                (Err(e), Err(f)) => e.model() == f,
                _ => false,
            },
        decreases old(self).ts().len() - old(self).pos, 2nat,
    {
        let mut acc = acc0;
        loop
            invariant
                self.wf(),
                self.ts() == old(self).ts(),
                lo < old(self).pos <= self.pos,
                p_field_list(
                    old(self).ts(),
                    old(self).pos as int,
                    field_decl_models(acc0@),
                    grammar(old(self).ts(), lo)
                ) == p_field_list(
                    old(self).ts(),
                    self.pos as int, field_decl_models(acc@),
                    grammar(old(self).ts(), lo),
                ),
            decreases self.ts().len() - self.pos,
        {
            proof {
                reveal_with_fuel(p_field_list, 1);
            }
            let x = match self.field_decl(Ghost(lo)) {
                Ok(x) => x,
                Err(e) => {
                    return Err(e);
                },
            };
            let item = x;
            let ghost pushed = item.model();
            let ghost before = acc@;
            acc.push(item);
            assert(field_decl_models(acc@) =~= field_decl_models(before).push(pushed));
            if self.cur() == Tok::Comma {
                self.bump();
                continue;
            }
            return Ok(acc);
        }
    }

    /// `x, y : T`
    fn var_decl(&mut self, Ghost(lo): Ghost<int>) -> (r: Result<VarDecl, ParseError>)
        requires
            old(self).wf(),
            lo < old(self).pos,
        ensures
            final(self).wf(),
            final(self).ts() == old(self).ts(),
            match (r, p_var_decl(old(self).ts(), old(self).pos as int, grammar(old(self).ts(), lo))) {
                (Ok(v), Ok((m, k))) => v.model() == m && final(self).pos == k && old(self).pos < k,
                (Err(e), Err(f)) => e.model() == f,
                _ => false,
            },
        decreases old(self).ts().len() - old(self).pos, 2nat,
    {
        proof {
            reveal(p_var_decl);
        }
        let start = self.start();
        let none: Vec<Ident> = Vec::new();
        assert(ident_models(none@) =~= Seq::empty());
        let names = match self.ident_list(none, Ghost(lo)) {
            Ok(x) => x,
            Err(e) => {
                return Err(e);
            },
        };
        if self.cur() != Tok::Colon {
            return Err(self.expected("`:'"));
        }
        self.bump();
        let ty = match self.type_inner(Ghost(lo)) {
            Ok(x) => x,
            Err(e) => {
                return Err(e);
            },
        };
        return Ok(VarDecl { names, ty, span: self.span_from(start) });
    }

    /// Variable declarations with commas between them.
    fn var_decl_plus(
        &mut self,
        acc0: Vec<VarDecl>,
        Ghost(lo): Ghost<int>
    ) -> (r: Result<Vec<VarDecl>, ParseError>)
        requires
            old(self).wf(),
            lo < old(self).pos,
        ensures
            final(self).wf(),
            final(self).ts() == old(self).ts(),
            match (
                r,
                p_var_decl_plus(
                    old(self).ts(),
                    old(self).pos as int,
                    var_decl_models(acc0@),
                    grammar(old(self).ts(), lo)
                )
            ) {
                (Ok(v), Ok((m, k))) => var_decl_models(v@) == m && final(self).pos == k && old(self).pos < k,
                (Err(e), Err(f)) => e.model() == f,
                _ => false,
            },
        decreases old(self).ts().len() - old(self).pos, 3nat,
    {
        let mut acc = acc0;
        loop
            invariant
                self.wf(),
                self.ts() == old(self).ts(),
                lo < old(self).pos <= self.pos,
                p_var_decl_plus(
                    old(self).ts(),
                    old(self).pos as int,
                    var_decl_models(acc0@),
                    grammar(old(self).ts(), lo)
                ) == p_var_decl_plus(
                    old(self).ts(),
                    self.pos as int, var_decl_models(acc@),
                    grammar(old(self).ts(), lo),
                ),
            decreases self.ts().len() - self.pos,
        {
            proof {
                reveal_with_fuel(p_var_decl_plus, 1);
            }
            let x = match self.var_decl(Ghost(lo)) {
                Ok(x) => x,
                Err(e) => {
                    return Err(e);
                },
            };
            let item = x;
            let ghost pushed = item.model();
            let ghost before = acc@;
            acc.push(item);
            assert(var_decl_models(acc@) =~= var_decl_models(before).push(pushed));
            if self.cur() == Tok::Comma {
                self.bump();
                continue;
            }
            return Ok(acc);
        }
    }

    /// An expression whose operators bind at least as strongly as `min`.
    fn expr_bp(&mut self, min: u8, Ghost(lo): Ghost<int>) -> (r: Result<Expr, ParseError>)
        requires
            old(self).wf(),
            lo < old(self).pos,
        ensures
            final(self).wf(),
            final(self).ts() == old(self).ts(),
            match (r, (grammar(old(self).ts(), lo).expr)(old(self).pos as int, min)) {
                (Ok(v), Ok((m, k))) => v.model() == m && final(self).pos == k && old(self).pos < k
                    && v.parens <= k - old(self).pos,
                (Err(e), Err(f)) => e.model() == f,
                _ => false,
            },
        decreases old(self).ts().len() - old(self).pos, 5nat,
    {
        proof {
            reveal(p_expr_bp);
            grammar_rules(self.ts(), lo, self.pos as int);
        }
        let ghost lo = self.pos as int;
        let start = self.start();
        if self.cur() == Tok::Not && min <= BP_NOT {
            self.bump();
            let operand = match self.expr_bp(51, Ghost(lo)) {
                Ok(x) => x,
                Err(e) => {
                    return Err(e);
                },
            };
            let lhs = mk_expr(ExprKind::Unary(UnOp::Not, Box::new(operand)), self.span_from(start));
            return self.expr_tail(start, min, lhs, Ghost(lo));
        }
        if self.cur() == Tok::Minus {
            self.bump();
            let operand = match self.expr_bp(85, Ghost(lo)) {
                Ok(x) => x,
                Err(e) => {
                    return Err(e);
                },
            };
            let lhs = mk_expr(ExprKind::Unary(UnOp::Minus, Box::new(operand)), self.span_from(start));
            return self.expr_tail(start, min, lhs, Ghost(lo));
        }
        let lhs = match self.expr_postfix(Ghost(lo)) {
            Ok(x) => x,
            Err(e) => {
                return Err(e);
            },
        };
        return self.expr_tail(start, min, lhs, Ghost(lo));
    }

    /// What follows an operand: updates and binary operations.
    fn expr_tail(
        &mut self,
        start: Pos,
        min: u8,
        lhs0: Expr,
        Ghost(lo): Ghost<int>
    ) -> (r: Result<Expr, ParseError>)
        requires
            old(self).wf(),
            lo < old(self).pos,
        ensures
            final(self).wf(),
            final(self).ts() == old(self).ts(),
            match (
                r,
                p_expr_tail(
                    old(self).ts(),
                    old(self).pos as int,
                    start,
                    min,
                    lhs0.model(),
                    grammar(old(self).ts(), lo)
                )
            ) {
                (Ok(v), Ok((m, k))) => v.model() == m && final(self).pos == k && old(self).pos <= k
                    && v.parens <= lhs0.parens + (k - old(self).pos),
                (Err(e), Err(f)) => e.model() == f,
                _ => false,
            },
        decreases old(self).ts().len() - old(self).pos, 1nat,
    {
        let mut lhs = lhs0;
        loop
            invariant
                self.wf(),
                self.ts() == old(self).ts(),
                lo < old(self).pos <= self.pos,
                lhs.parens <= lhs0.parens,
                p_expr_tail(
                    old(self).ts(),
                    old(self).pos as int,
                    start,
                    min,
                    lhs0.model(),
                    grammar(old(self).ts(), lo)
                ) == p_expr_tail(
                    old(self).ts(),
                    self.pos as int, start, min, lhs.model(),
                    grammar(old(self).ts(), lo),
                ),
            decreases self.ts().len() - self.pos,
        {
            proof {
                reveal_with_fuel(p_expr_tail, 1);
            }
            if self.cur() == Tok::With && min <= BP_WITH {
                self.bump();
                let none: Vec<Access> = Vec::new();
                assert(access_models(none@) =~= Seq::empty());
                let accesses = match self.access_list(none, Ghost(lo)) {
                    Ok(x) => x,
                    Err(e) => {
                        return Err(e);
                    },
                };
                if self.cur() != Tok::Assign {
                    return Err(self.expected("`:='"));
                }
                self.bump();
                let value = match self.expr_bp(61, Ghost(lo)) {
                    Ok(x) => x,
                    Err(e) => {
                        return Err(e);
                    },
                };
                lhs = mk_expr(
                    ExprKind::Update { target: Box::new(lhs), accesses, value: Box::new(value) },
                    self.span_from(start)
                );
                continue;
            }
            match find_binop(self.cur()) {
                Some((op, bp, right)) => {
                    if bp < min {
                        return Ok(lhs);
                    }
                    self.bump();
                    let next: u8 = if right { bp } else { bp + 1 };
                    let rhs = match self.expr_bp(next, Ghost(lo)) {
                        Ok(x) => x,
                        Err(e) => {
                            return Err(e);
                        },
                    };
                    lhs = mk_expr(ExprKind::Binary(op, Box::new(lhs), Box::new(rhs)), self.span_from(start));
                    continue;
                },
                None => {},
            }
            return Ok(lhs);
        }
    }

    /// The accesses of an update, at least one.
    fn access_list(&mut self, acc0: Vec<Access>, Ghost(lo): Ghost<int>) -> (r: Result<Vec<Access>, ParseError>)
        requires
            old(self).wf(),
            lo < old(self).pos,
        ensures
            final(self).wf(),
            final(self).ts() == old(self).ts(),
            match (
                r,
                p_access_list(
                    old(self).ts(),
                    old(self).pos as int,
                    access_models(acc0@),
                    grammar(old(self).ts(), lo)
                )
            ) {
                (Ok(v), Ok((m, k))) => access_models(v@) == m && final(self).pos == k && old(self).pos < k,
                (Err(e), Err(f)) => e.model() == f,
                _ => false,
            },
        decreases old(self).ts().len() - old(self).pos, 2nat,
    {
        let mut acc = acc0;
        loop
            invariant
                self.wf(),
                self.ts() == old(self).ts(),
                lo < old(self).pos <= self.pos,
                p_access_list(
                    old(self).ts(),
                    old(self).pos as int,
                    access_models(acc0@),
                    grammar(old(self).ts(), lo)
                ) == p_access_list(
                    old(self).ts(),
                    self.pos as int, access_models(acc@),
                    grammar(old(self).ts(), lo),
                ),
            decreases self.ts().len() - self.pos,
        {
            proof {
                reveal_with_fuel(p_access_list, 1);
            }
            let x = match self.access_argument(Ghost(lo)) {
                Ok(x) => x,
                Err(e) => {
                    return Err(e);
                },
            };
            let item = x;
            let ghost pushed = item.model();
            let ghost before = acc@;
            acc.push(item);
            assert(access_models(acc@) =~= access_models(before).push(pushed));
            if (self.cur() == Tok::LBrack || self.cur() == Tok::Dot || self.cur() == Tok::LParen) {
                continue;
            }
            return Ok(acc);
        }
    }

    /// A primary expression with applications and selections behind it.
    fn expr_postfix(&mut self, Ghost(lo): Ghost<int>) -> (r: Result<Expr, ParseError>)
        requires
            old(self).wf(),
            lo <= old(self).pos,
        ensures
            final(self).wf(),
            final(self).ts() == old(self).ts(),
            match (r, p_expr_postfix(old(self).ts(), old(self).pos as int, grammar(old(self).ts(), lo))) {
                (Ok(v), Ok((m, k))) => v.model() == m && final(self).pos == k && old(self).pos < k
                    && v.parens <= k - old(self).pos,
                (Err(e), Err(f)) => e.model() == f,
                _ => false,
            },
        decreases old(self).ts().len() - old(self).pos, 4nat,
    {
        proof {
            reveal(p_expr_postfix);
        }
        let start = self.start();
        let e = match self.expr_primary(Ghost(lo)) {
            Ok(x) => x,
            Err(e) => {
                return Err(e);
            },
        };
        return self.postfix_tail(start, e, Ghost(lo));
    }

    /// Applications and selections behind an expression.
    fn postfix_tail(&mut self, start: Pos, e0: Expr, Ghost(lo): Ghost<int>) -> (r: Result<Expr, ParseError>)
        requires
            old(self).wf(),
            lo < old(self).pos,
        ensures
            final(self).wf(),
            final(self).ts() == old(self).ts(),
            match (
                r,
                p_postfix_tail(
                    old(self).ts(),
                    old(self).pos as int,
                    start,
                    e0.model(),
                    grammar(old(self).ts(), lo)
                )
            ) {
                (Ok(v), Ok((m, k))) => v.model() == m && final(self).pos == k && old(self).pos <= k
                    && v.parens <= e0.parens + (k - old(self).pos),
                (Err(e), Err(f)) => e.model() == f,
                _ => false,
            },
        decreases old(self).ts().len() - old(self).pos, 1nat,
    {
        let mut e = e0;
        loop
            invariant
                self.wf(),
                self.ts() == old(self).ts(),
                lo < old(self).pos <= self.pos,
                e.parens <= e0.parens,
                p_postfix_tail(
                    old(self).ts(),
                    old(self).pos as int,
                    start,
                    e0.model(),
                    grammar(old(self).ts(), lo)
                ) == p_postfix_tail(
                    old(self).ts(),
                    self.pos as int, start, e.model(),
                    grammar(old(self).ts(), lo),
                ),
            decreases self.ts().len() - self.pos,
        {
            proof {
                reveal_with_fuel(p_postfix_tail, 1);
            }
            if self.cur() == Tok::LParen {
                self.bump();
                let none: Vec<Expr> = Vec::new();
                assert(expr_models(none@) =~= Seq::empty());
                let args = match self.expr_plus(none, Ghost(lo)) {
                    Ok(x) => x,
                    Err(e) => {
                        return Err(e);
                    },
                };
                if self.cur() != Tok::RParen {
                    return Err(self.expected("`)'"));
                }
                self.bump();
                e = mk_expr(ExprKind::App(Box::new(e), args), self.span_from(start));
                continue;
            }
            if self.cur() == Tok::LBrack {
                self.bump();
                let idx = match self.expr_bp(0, Ghost(lo)) {
                    Ok(x) => x,
                    Err(e) => {
                        return Err(e);
                    },
                };
                if self.cur() != Tok::RBrack {
                    return Err(self.expected("`]'"));
                }
                self.bump();
                e = mk_expr(ExprKind::ArraySelect(Box::new(e), Box::new(idx)), self.span_from(start));
                continue;
            }
            if self.cur() == Tok::Dot && self.look(1) == Tok::Identifier {
                self.bump();
                let id = match self.ident(Ghost(lo)) {
                    Ok(x) => x,
                    Err(e) => {
                        return Err(e);
                    },
                };
                e = mk_expr(ExprKind::RecordSelect(Box::new(e), id), self.span_from(start));
                continue;
            }
            if self.cur() == Tok::Dot && self.look(1) == Tok::Numeral {
                self.bump();
                let t = self.take();
                let n = match decimal_u32(&t.text) {
                    Some(n) => n,
                    None => {
                        return Err(ParseError { pos: t.span.start, msg: own("invalid tuple index") });
                    },
                };
                e = mk_expr(ExprKind::TupleSelect(Box::new(e), n), self.span_from(start));
                continue;
            }
            return Ok(e);
        }
    }

    /// Expressions with commas between them.
    fn expr_plus(&mut self, acc0: Vec<Expr>, Ghost(lo): Ghost<int>) -> (r: Result<Vec<Expr>, ParseError>)
        requires
            old(self).wf(),
            lo < old(self).pos,
        ensures
            final(self).wf(),
            final(self).ts() == old(self).ts(),
            match (
                r,
                p_expr_plus(
                    old(self).ts(),
                    old(self).pos as int,
                    expr_models(acc0@),
                    grammar(old(self).ts(), lo)
                )
            ) {
                (Ok(v), Ok((m, k))) => expr_models(v@) == m && final(self).pos == k && old(self).pos < k,
                (Err(e), Err(f)) => e.model() == f,
                _ => false,
            },
        decreases old(self).ts().len() - old(self).pos, 6nat,
    {
        let mut acc = acc0;
        loop
            invariant
                self.wf(),
                self.ts() == old(self).ts(),
                lo < old(self).pos <= self.pos,
                p_expr_plus(
                    old(self).ts(),
                    old(self).pos as int,
                    expr_models(acc0@),
                    grammar(old(self).ts(), lo)
                ) == p_expr_plus(
                    old(self).ts(),
                    self.pos as int, expr_models(acc@),
                    grammar(old(self).ts(), lo),
                ),
            decreases self.ts().len() - self.pos,
        {
            proof {
                reveal_with_fuel(p_expr_plus, 1);
            }
            let x = match self.expr_bp(0, Ghost(lo)) {
                Ok(x) => x,
                Err(e) => {
                    return Err(e);
                },
            };
            let item = x;
            let ghost pushed = item.model();
            let ghost before = acc@;
            acc.push(item);
            assert(expr_models(acc@) =~= expr_models(before).push(pushed));
            if self.cur() == Tok::Comma {
                self.bump();
                continue;
            }
            return Ok(acc);
        }
    }

    /// A primary expression.
    fn expr_primary(&mut self, Ghost(lo): Ghost<int>) -> (r: Result<Expr, ParseError>)
        requires
            old(self).wf(),
            lo <= old(self).pos,
        ensures
            final(self).wf(),
            final(self).ts() == old(self).ts(),
            match (r, p_expr_primary(old(self).ts(), old(self).pos as int, grammar(old(self).ts(), lo))) {
                (Ok(v), Ok((m, k))) => v.model() == m && final(self).pos == k && old(self).pos < k
                    && v.parens <= k - old(self).pos,
                (Err(e), Err(f)) => e.model() == f,
                _ => false,
            },
        decreases old(self).ts().len() - old(self).pos, 3nat,
    {
        proof {
            reveal(p_expr_primary);
        }
        if self.cur() == Tok::Identifier && self.look(1) == Tok::Quote {
            return self.next_expr(Ghost(lo));
        }
        if self.cur() == Tok::Identifier {
            return self.name_expr(Ghost(lo));
        }
        if self.cur() == Tok::Numeral {
            return self.numeral_expr(Ghost(lo));
        }
        if self.cur() == Tok::Str {
            return self.string_expr(Ghost(lo));
        }
        if self.cur() == Tok::Unbounded {
            return self.unbounded_expr(Ghost(lo));
        }
        if self.cur() == Tok::LParen {
            return self.paren_expr(Ghost(lo));
        }
        if self.cur() == Tok::Lambda {
            return self.lambda_expr(Ghost(lo));
        }
        if (self.cur() == Tok::Forall || self.cur() == Tok::Exists) {
            return self.quantified_expr(Ghost(lo));
        }
        if self.cur() == Tok::Let {
            return self.let_expr(Ghost(lo));
        }
        if self.cur() == Tok::If {
            return self.if_expr(Ghost(lo));
        }
        if self.cur() == Tok::LBrace && self.look(1) == Tok::Identifier && self.look(2) == Tok::Colon {
            return self.set_pred_expr(Ghost(lo));
        }
        if self.cur() == Tok::LBrace {
            return self.set_list_expr(Ghost(lo));
        }
        if self.cur() == Tok::LBrack {
            return self.array_expr(Ghost(lo));
        }
        if self.cur() == Tok::RecLitS {
            return self.record_expr(Ghost(lo));
        }
        if self.cur() == Tok::InitPred {
            return self.init_expr(Ghost(lo));
        }
        if self.cur() == Tok::TransPred {
            return self.trans_expr(Ghost(lo));
        }
        return Err(self.unexpected("Unexpected token \"", "\"."));
    }

    /// `x'`
    fn next_expr(&mut self, Ghost(lo): Ghost<int>) -> (r: Result<Expr, ParseError>)
        requires
            old(self).wf(),
            lo <= old(self).pos,
        ensures
            final(self).wf(),
            final(self).ts() == old(self).ts(),
            match (r, p_next_expr(old(self).ts(), old(self).pos as int, grammar(old(self).ts(), lo))) {
                (Ok(v), Ok((m, k))) => v.model() == m && final(self).pos == k && old(self).pos < k
                    && v.parens <= k - old(self).pos,
                (Err(e), Err(f)) => e.model() == f,
                _ => false,
            },
        decreases old(self).ts().len() - old(self).pos, 1nat,
    {
        proof {
            reveal(p_next_expr);
        }
        if self.cur() == Tok::Identifier && self.look(1) == Tok::Quote {
            let start = self.start();
            let id = match self.ident(Ghost(lo)) {
                Ok(x) => x,
                Err(e) => {
                    return Err(e);
                },
            };
            if self.cur() != Tok::Quote {
                return Err(self.expected("`''"));
            }
            self.bump();
            return Ok(mk_expr(ExprKind::Next(id), self.span_from(start)));
        }
        return Err(self.unexpected("Unexpected token \"", "\"."));
    }

    /// A name.
    fn name_expr(&mut self, Ghost(lo): Ghost<int>) -> (r: Result<Expr, ParseError>)
        requires
            old(self).wf(),
            lo <= old(self).pos,
        ensures
            final(self).wf(),
            final(self).ts() == old(self).ts(),
            match (r, p_name_expr(old(self).ts(), old(self).pos as int, grammar(old(self).ts(), lo))) {
                (Ok(v), Ok((m, k))) => v.model() == m && final(self).pos == k && old(self).pos < k
                    && v.parens <= k - old(self).pos,
                (Err(e), Err(f)) => e.model() == f,
                _ => false,
            },
        decreases old(self).ts().len() - old(self).pos, 2nat,
    {
        proof {
            reveal(p_name_expr);
        }
        if self.cur() == Tok::Identifier {
            let start = self.start();
            let name = match self.name(Ghost(lo)) {
                Ok(x) => x,
                Err(e) => {
                    return Err(e);
                },
            };
            return Ok(mk_expr(ExprKind::Name(name), self.span_from(start)));
        }
        return Err(self.unexpected("Unexpected token \"", "\"."));
    }

    /// A numeral, with or without a fraction.
    fn numeral_expr(&mut self, Ghost(lo): Ghost<int>) -> (r: Result<Expr, ParseError>)
        requires
            old(self).wf(),
            lo <= old(self).pos,
        ensures
            final(self).wf(),
            final(self).ts() == old(self).ts(),
            match (r, p_numeral_expr(old(self).ts(), old(self).pos as int, grammar(old(self).ts(), lo))) {
                (Ok(v), Ok((m, k))) => v.model() == m && final(self).pos == k && old(self).pos < k
                    && v.parens <= k - old(self).pos,
                (Err(e), Err(f)) => e.model() == f,
                _ => false,
            },
        decreases old(self).ts().len() - old(self).pos, 1nat,
    {
        proof {
            reveal(p_numeral_expr);
        }
        if self.cur() == Tok::Numeral {
            let start = self.start();
            let t = self.take();
            if self.cur() == Tok::Dot && self.look(1) == Tok::Numeral {
                self.bump();
                let d = self.take();
                let numer = joined_text(&t.text, &d.text);
                let denom = power_of_ten(&d.text);
                return Ok(mk_expr(ExprKind::Float { numer, denom }, self.span_from(start)));
            }
            let span = t.span;
            return Ok(mk_expr(ExprKind::Numeral(t.text), span));
        }
        return Err(self.unexpected("Unexpected token \"", "\"."));
    }

    /// A string.
    fn string_expr(&mut self, Ghost(lo): Ghost<int>) -> (r: Result<Expr, ParseError>)
        requires
            old(self).wf(),
            lo <= old(self).pos,
        ensures
            final(self).wf(),
            final(self).ts() == old(self).ts(),
            match (r, p_string_expr(old(self).ts(), old(self).pos as int, grammar(old(self).ts(), lo))) {
                (Ok(v), Ok((m, k))) => v.model() == m && final(self).pos == k && old(self).pos < k
                    && v.parens <= k - old(self).pos,
                (Err(e), Err(f)) => e.model() == f,
                _ => false,
            },
        decreases old(self).ts().len() - old(self).pos, 1nat,
    {
        proof {
            reveal(p_string_expr);
        }
        if self.cur() == Tok::Str {
            let start = self.start();
            let t = self.take();
            let span = t.span;
            return Ok(mk_expr(ExprKind::Str(t.text), span));
        }
        return Err(self.unexpected("Unexpected token \"", "\"."));
    }

    /// `_`
    fn unbounded_expr(&mut self, Ghost(lo): Ghost<int>) -> (r: Result<Expr, ParseError>)
        requires
            old(self).wf(),
            lo <= old(self).pos,
        ensures
            final(self).wf(),
            final(self).ts() == old(self).ts(),
            match (r, p_unbounded_expr(old(self).ts(), old(self).pos as int, grammar(old(self).ts(), lo))) {
                (Ok(v), Ok((m, k))) => v.model() == m && final(self).pos == k && old(self).pos < k
                    && v.parens <= k - old(self).pos,
                (Err(e), Err(f)) => e.model() == f,
                _ => false,
            },
        decreases old(self).ts().len() - old(self).pos, 1nat,
    {
        proof {
            reveal(p_unbounded_expr);
        }
        if self.cur() == Tok::Unbounded {
            let start = self.start();
            let t = self.take();
            let span = t.span;
            return Ok(mk_expr(ExprKind::Unbounded, span));
        }
        return Err(self.unexpected("Unexpected token \"", "\"."));
    }

    /// An expression in parentheses, or a tuple.
    fn paren_expr(&mut self, Ghost(lo): Ghost<int>) -> (r: Result<Expr, ParseError>)
        requires
            old(self).wf(),
            lo <= old(self).pos,
        ensures
            final(self).wf(),
            final(self).ts() == old(self).ts(),
            match (r, p_paren_expr(old(self).ts(), old(self).pos as int, grammar(old(self).ts(), lo))) {
                (Ok(v), Ok((m, k))) => v.model() == m && final(self).pos == k && old(self).pos < k
                    && v.parens <= k - old(self).pos,
                (Err(e), Err(f)) => e.model() == f,
                _ => false,
            },
        decreases old(self).ts().len() - old(self).pos, 1nat,
    {
        proof {
            reveal(p_paren_expr);
        }
        if self.cur() == Tok::LParen {
            let start = self.start();
            self.bump();
            let e = match self.expr_bp(0, Ghost(lo)) {
                Ok(x) => x,
                Err(e) => {
                    return Err(e);
                },
            };
            if self.cur() == Tok::Comma {
                self.bump();
                let ghost only = e.model();
                let first = vec![e];
                assert(expr_models(first@) =~= seq![only]);
                let elems = match self.expr_plus(first, Ghost(lo)) {
                    Ok(x) => x,
                    Err(e) => {
                        return Err(e);
                    },
                };
                if self.cur() != Tok::RParen {
                    return Err(self.expected("`)'"));
                }
                self.bump();
                return Ok(mk_expr(ExprKind::TupleLit(elems), self.span_from(start)));
            }
            if self.cur() != Tok::RParen {
                return Err(self.expected("`)'"));
            }
            self.bump();
            return Ok(mk_wrapped(e, self.span_from(start)));
        }
        return Err(self.unexpected("Unexpected token \"", "\"."));
    }

    /// A function.
    fn lambda_expr(&mut self, Ghost(lo): Ghost<int>) -> (r: Result<Expr, ParseError>)
        requires
            old(self).wf(),
            lo <= old(self).pos,
        ensures
            final(self).wf(),
            final(self).ts() == old(self).ts(),
            match (r, p_lambda_expr(old(self).ts(), old(self).pos as int, grammar(old(self).ts(), lo))) {
                (Ok(v), Ok((m, k))) => v.model() == m && final(self).pos == k && old(self).pos < k
                    && v.parens <= k - old(self).pos,
                (Err(e), Err(f)) => e.model() == f,
                _ => false,
            },
        decreases old(self).ts().len() - old(self).pos, 1nat,
    {
        proof {
            reveal(p_lambda_expr);
        }
        if self.cur() == Tok::Lambda {
            let start = self.start();
            self.bump();
            if self.cur() != Tok::LParen {
                return Err(self.expected("`('"));
            }
            self.bump();
            let none: Vec<VarDecl> = Vec::new();
            assert(var_decl_models(none@) =~= Seq::empty());
            let decls = match self.var_decl_plus(none, Ghost(lo)) {
                Ok(x) => x,
                Err(e) => {
                    return Err(e);
                },
            };
            if self.cur() != Tok::RParen {
                return Err(self.expected("`)'"));
            }
            self.bump();
            if self.cur() != Tok::Colon {
                return Err(self.expected("`:'"));
            }
            self.bump();
            let body = match self.expr_bp(0, Ghost(lo)) {
                Ok(x) => x,
                Err(e) => {
                    return Err(e);
                },
            };
            return Ok(mk_expr(ExprKind::Lambda(decls, Box::new(body)), self.span_from(start)));
        }
        return Err(self.unexpected("Unexpected token \"", "\"."));
    }

    /// A quantified expression.
    fn quantified_expr(&mut self, Ghost(lo): Ghost<int>) -> (r: Result<Expr, ParseError>)
        requires
            old(self).wf(),
            lo <= old(self).pos,
        ensures
            final(self).wf(),
            final(self).ts() == old(self).ts(),
            match (r, p_quantified_expr(old(self).ts(), old(self).pos as int, grammar(old(self).ts(), lo))) {
                (Ok(v), Ok((m, k))) => v.model() == m && final(self).pos == k && old(self).pos < k
                    && v.parens <= k - old(self).pos,
                (Err(e), Err(f)) => e.model() == f,
                _ => false,
            },
        decreases old(self).ts().len() - old(self).pos, 1nat,
    {
        proof {
            reveal(p_quantified_expr);
        }
        if (self.cur() == Tok::Forall || self.cur() == Tok::Exists) {
            let start = self.start();
            let q = if self.cur() == Tok::Forall { Quantifier::Forall } else { Quantifier::Exists };
            self.bump();
            if self.cur() != Tok::LParen {
                return Err(self.expected("`('"));
            }
            self.bump();
            let none: Vec<VarDecl> = Vec::new();
            assert(var_decl_models(none@) =~= Seq::empty());
            let decls = match self.var_decl_plus(none, Ghost(lo)) {
                Ok(x) => x,
                Err(e) => {
                    return Err(e);
                },
            };
            if self.cur() != Tok::RParen {
                return Err(self.expected("`)'"));
            }
            self.bump();
            if self.cur() != Tok::Colon {
                return Err(self.expected("`:'"));
            }
            self.bump();
            let body = match self.expr_bp(0, Ghost(lo)) {
                Ok(x) => x,
                Err(e) => {
                    return Err(e);
                },
            };
            return Ok(mk_expr(ExprKind::Quantified(q, decls, Box::new(body)), self.span_from(start)));
        }
        return Err(self.unexpected("Unexpected token \"", "\"."));
    }

    /// Local declarations.
    fn let_expr(&mut self, Ghost(lo): Ghost<int>) -> (r: Result<Expr, ParseError>)
        requires
            old(self).wf(),
            lo <= old(self).pos,
        ensures
            final(self).wf(),
            final(self).ts() == old(self).ts(),
            match (r, p_let_expr(old(self).ts(), old(self).pos as int, grammar(old(self).ts(), lo))) {
                (Ok(v), Ok((m, k))) => v.model() == m && final(self).pos == k && old(self).pos < k
                    && v.parens <= k - old(self).pos,
                (Err(e), Err(f)) => e.model() == f,
                _ => false,
            },
        decreases old(self).ts().len() - old(self).pos, 1nat,
    {
        proof {
            reveal(p_let_expr);
        }
        if self.cur() == Tok::Let {
            let start = self.start();
            self.bump();
            let none: Vec<LetDecl> = Vec::new();
            assert(let_decl_models(none@) =~= Seq::empty());
            let decls = match self.let_list(none, Ghost(lo)) {
                Ok(x) => x,
                Err(e) => {
                    return Err(e);
                },
            };
            if self.cur() != Tok::In {
                return Err(self.expected("IN"));
            }
            self.bump();
            let body = match self.expr_bp(0, Ghost(lo)) {
                Ok(x) => x,
                Err(e) => {
                    return Err(e);
                },
            };
            return Ok(mk_expr(ExprKind::Let(decls, Box::new(body)), self.span_from(start)));
        }
        return Err(self.unexpected("Unexpected token \"", "\"."));
    }

    /// A conditional.
    fn if_expr(&mut self, Ghost(lo): Ghost<int>) -> (r: Result<Expr, ParseError>)
        requires
            old(self).wf(),
            lo <= old(self).pos,
        ensures
            final(self).wf(),
            final(self).ts() == old(self).ts(),
            match (r, p_if_expr(old(self).ts(), old(self).pos as int, grammar(old(self).ts(), lo))) {
                (Ok(v), Ok((m, k))) => v.model() == m && final(self).pos == k && old(self).pos < k
                    && v.parens <= k - old(self).pos,
                (Err(e), Err(f)) => e.model() == f,
                _ => false,
            },
        decreases old(self).ts().len() - old(self).pos, 1nat,
    {
        proof {
            reveal(p_if_expr);
        }
        if self.cur() == Tok::If {
            let start = self.start();
            self.bump();
            let cond = match self.expr_bp(0, Ghost(lo)) {
                Ok(x) => x,
                Err(e) => {
                    return Err(e);
                },
            };
            if self.cur() != Tok::Then {
                return Err(self.expected("THEN"));
            }
            self.bump();
            let yes = match self.expr_bp(0, Ghost(lo)) {
                Ok(x) => x,
                Err(e) => {
                    return Err(e);
                },
            };
            let no = match self.conditional_tail(start, Ghost(lo)) {
                Ok(x) => x,
                Err(e) => {
                    return Err(e);
                },
            };
            return Ok(mk_expr(ExprKind::Conditional { cond: Box::new(cond), then_: Box::new(yes), els: Box::new(no), is_elsif: false }, self.span_from(start)));
        }
        return Err(self.unexpected("Unexpected token \"", "\"."));
    }

    /// A set by its predicate.
    fn set_pred_expr(&mut self, Ghost(lo): Ghost<int>) -> (r: Result<Expr, ParseError>)
        requires
            old(self).wf(),
            lo <= old(self).pos,
        ensures
            final(self).wf(),
            final(self).ts() == old(self).ts(),
            match (r, p_set_pred_expr(old(self).ts(), old(self).pos as int, grammar(old(self).ts(), lo))) {
                (Ok(v), Ok((m, k))) => v.model() == m && final(self).pos == k && old(self).pos < k
                    && v.parens <= k - old(self).pos,
                (Err(e), Err(f)) => e.model() == f,
                _ => false,
            },
        decreases old(self).ts().len() - old(self).pos, 1nat,
    {
        proof {
            reveal(p_set_pred_expr);
        }
        if self.cur() == Tok::LBrace && self.look(1) == Tok::Identifier && self.look(2) == Tok::Colon {
            let start = self.start();
            self.bump();
            let var = match self.ident(Ghost(lo)) {
                Ok(x) => x,
                Err(e) => {
                    return Err(e);
                },
            };
            if self.cur() != Tok::Colon {
                return Err(self.expected("`:'"));
            }
            self.bump();
            let ty = match self.type_inner(Ghost(lo)) {
                Ok(x) => x,
                Err(e) => {
                    return Err(e);
                },
            };
            if self.cur() != Tok::VBar {
                return Err(self.expected("`|'"));
            }
            self.bump();
            let pred = match self.expr_bp(0, Ghost(lo)) {
                Ok(x) => x,
                Err(e) => {
                    return Err(e);
                },
            };
            if self.cur() != Tok::RBrace {
                return Err(self.expected("`}'"));
            }
            self.bump();
            let span = self.span_from(start);
            let sp = SetPred { var, ty, pred, span };
            let ghost sp_value = sp.model();
            return Ok(mk_expr(ExprKind::SetPred(Box::new(sp)), span));
        }
        return Err(self.unexpected("Unexpected token \"", "\"."));
    }

    /// A set by its elements.
    fn set_list_expr(&mut self, Ghost(lo): Ghost<int>) -> (r: Result<Expr, ParseError>)
        requires
            old(self).wf(),
            lo <= old(self).pos,
        ensures
            final(self).wf(),
            final(self).ts() == old(self).ts(),
            match (r, p_set_list_expr(old(self).ts(), old(self).pos as int, grammar(old(self).ts(), lo))) {
                (Ok(v), Ok((m, k))) => v.model() == m && final(self).pos == k && old(self).pos < k
                    && v.parens <= k - old(self).pos,
                (Err(e), Err(f)) => e.model() == f,
                _ => false,
            },
        decreases old(self).ts().len() - old(self).pos, 1nat,
    {
        proof {
            reveal(p_set_list_expr);
        }
        if self.cur() == Tok::LBrace {
            let start = self.start();
            self.bump();
            let none: Vec<Expr> = Vec::new();
            assert(expr_models(none@) =~= Seq::empty());
            let elems = match self.expr_plus(none, Ghost(lo)) {
                Ok(x) => x,
                Err(e) => {
                    return Err(e);
                },
            };
            if self.cur() != Tok::RBrace {
                return Err(self.expected("`}'"));
            }
            self.bump();
            return Ok(mk_expr(ExprKind::SetList(elems), self.span_from(start)));
        }
        return Err(self.unexpected("Unexpected token \"", "\"."));
    }

    /// An array.
    fn array_expr(&mut self, Ghost(lo): Ghost<int>) -> (r: Result<Expr, ParseError>)
        requires
            old(self).wf(),
            lo <= old(self).pos,
        ensures
            final(self).wf(),
            final(self).ts() == old(self).ts(),
            match (r, p_array_expr(old(self).ts(), old(self).pos as int, grammar(old(self).ts(), lo))) {
                (Ok(v), Ok((m, k))) => v.model() == m && final(self).pos == k && old(self).pos < k
                    && v.parens <= k - old(self).pos,
                (Err(e), Err(f)) => e.model() == f,
                _ => false,
            },
        decreases old(self).ts().len() - old(self).pos, 1nat,
    {
        proof {
            reveal(p_array_expr);
        }
        if self.cur() == Tok::LBrack {
            let start = self.start();
            self.bump();
            if self.cur() != Tok::LBrack {
                return Err(self.expected("`['"));
            }
            self.bump();
            let id = match self.ident(Ghost(lo)) {
                Ok(x) => x,
                Err(e) => {
                    return Err(e);
                },
            };
            if self.cur() != Tok::Colon {
                return Err(self.expected("`:'"));
            }
            self.bump();
            let ty = match self.type_inner(Ghost(lo)) {
                Ok(x) => x,
                Err(e) => {
                    return Err(e);
                },
            };
            if self.cur() != Tok::RBrack {
                return Err(self.expected("`]'"));
            }
            self.bump();
            let vspan = Span { start, end: ty.span.end };
            let body = match self.expr_bp(0, Ghost(lo)) {
                Ok(x) => x,
                Err(e) => {
                    return Err(e);
                },
            };
            if self.cur() != Tok::RBrack {
                return Err(self.expected("`]'"));
            }
            self.bump();
            let ghost only = id.model();
            let names = vec![id];
            assert(ident_models(names@) =~= seq![only]);
            let decl = VarDecl { names, ty, span: vspan };
            let ghost decl_value = decl.model();
            return Ok(mk_expr(ExprKind::ArrayLit(Box::new(decl), Box::new(body)), self.span_from(start)));
        }
        return Err(self.unexpected("Unexpected token \"", "\"."));
    }

    /// A record.
    fn record_expr(&mut self, Ghost(lo): Ghost<int>) -> (r: Result<Expr, ParseError>)
        requires
            old(self).wf(),
            lo <= old(self).pos,
        ensures
            final(self).wf(),
            final(self).ts() == old(self).ts(),
            match (r, p_record_expr(old(self).ts(), old(self).pos as int, grammar(old(self).ts(), lo))) {
                (Ok(v), Ok((m, k))) => v.model() == m && final(self).pos == k && old(self).pos < k
                    && v.parens <= k - old(self).pos,
                (Err(e), Err(f)) => e.model() == f,
                _ => false,
            },
        decreases old(self).ts().len() - old(self).pos, 1nat,
    {
        proof {
            reveal(p_record_expr);
        }
        if self.cur() == Tok::RecLitS {
            let start = self.start();
            self.bump();
            let none: Vec<(Ident, Expr)> = Vec::new();
            assert(ident_expr_pairs(none@) =~= Seq::empty());
            let entries = match self.entry_list(none, Ghost(lo)) {
                Ok(x) => x,
                Err(e) => {
                    return Err(e);
                },
            };
            if self.cur() != Tok::RecLitE {
                return Err(self.expected("`#)'"));
            }
            self.bump();
            return Ok(mk_expr(ExprKind::RecordLit(entries), self.span_from(start)));
        }
        return Err(self.unexpected("Unexpected token \"", "\"."));
    }

    /// The initial states of a module.
    fn init_expr(&mut self, Ghost(lo): Ghost<int>) -> (r: Result<Expr, ParseError>)
        requires
            old(self).wf(),
            lo <= old(self).pos,
        ensures
            final(self).wf(),
            final(self).ts() == old(self).ts(),
            match (r, p_init_expr(old(self).ts(), old(self).pos as int, grammar(old(self).ts(), lo))) {
                (Ok(v), Ok((m, k))) => v.model() == m && final(self).pos == k && old(self).pos < k
                    && v.parens <= k - old(self).pos,
                (Err(e), Err(f)) => e.model() == f,
                _ => false,
            },
        decreases old(self).ts().len() - old(self).pos, 1nat,
    {
        proof {
            reveal(p_init_expr);
        }
        if self.cur() == Tok::InitPred {
            let start = self.start();
            self.bump();
            if self.cur() != Tok::LParen {
                return Err(self.expected("`('"));
            }
            self.bump();
            let m = match self.module_inner(Ghost(lo)) {
                Ok(x) => x,
                Err(e) => {
                    return Err(e);
                },
            };
            if self.cur() != Tok::RParen {
                return Err(self.expected("`)'"));
            }
            self.bump();
            return Ok(mk_expr(ExprKind::ModInit(Box::new(m)), self.span_from(start)));
        }
        return Err(self.unexpected("Unexpected token \"", "\"."));
    }

    /// The transitions of a module.
    fn trans_expr(&mut self, Ghost(lo): Ghost<int>) -> (r: Result<Expr, ParseError>)
        requires
            old(self).wf(),
            lo <= old(self).pos,
        ensures
            final(self).wf(),
            final(self).ts() == old(self).ts(),
            match (r, p_trans_expr(old(self).ts(), old(self).pos as int, grammar(old(self).ts(), lo))) {
                (Ok(v), Ok((m, k))) => v.model() == m && final(self).pos == k && old(self).pos < k
                    && v.parens <= k - old(self).pos,
                (Err(e), Err(f)) => e.model() == f,
                _ => false,
            },
        decreases old(self).ts().len() - old(self).pos, 1nat,
    {
        proof {
            reveal(p_trans_expr);
        }
        if self.cur() == Tok::TransPred {
            let start = self.start();
            self.bump();
            if self.cur() != Tok::LParen {
                return Err(self.expected("`('"));
            }
            self.bump();
            let m = match self.module_inner(Ghost(lo)) {
                Ok(x) => x,
                Err(e) => {
                    return Err(e);
                },
            };
            if self.cur() != Tok::RParen {
                return Err(self.expected("`)'"));
            }
            self.bump();
            return Ok(mk_expr(ExprKind::ModTrans(Box::new(m)), self.span_from(start)));
        }
        return Err(self.unexpected("Unexpected token \"", "\"."));
    }

    /// The entries of a record.
    fn entry_list(
        &mut self,
        acc0: Vec<(Ident, Expr)>,
        Ghost(lo): Ghost<int>
    ) -> (r: Result<Vec<(Ident, Expr)>, ParseError>)
        requires
            old(self).wf(),
            lo < old(self).pos,
        ensures
            final(self).wf(),
            final(self).ts() == old(self).ts(),
            match (
                r,
                p_entry_list(
                    old(self).ts(),
                    old(self).pos as int,
                    ident_expr_pairs(acc0@),
                    grammar(old(self).ts(), lo)
                )
            ) {
                (Ok(v), Ok((m, k))) => ident_expr_pairs(v@) == m && final(self).pos == k && old(self).pos < k,
                (Err(e), Err(f)) => e.model() == f,
                _ => false,
            },
        decreases old(self).ts().len() - old(self).pos, 1nat,
    {
        let mut acc = acc0;
        loop
            invariant
                self.wf(),
                self.ts() == old(self).ts(),
                lo < old(self).pos <= self.pos,
                p_entry_list(
                    old(self).ts(),
                    old(self).pos as int,
                    ident_expr_pairs(acc0@),
                    grammar(old(self).ts(), lo)
                ) == p_entry_list(
                    old(self).ts(),
                    self.pos as int, ident_expr_pairs(acc@),
                    grammar(old(self).ts(), lo),
                ),
            decreases self.ts().len() - self.pos,
        {
            proof {
                reveal_with_fuel(p_entry_list, 1);
            }
            let id = match self.ident(Ghost(lo)) {
                Ok(x) => x,
                Err(e) => {
                    return Err(e);
                },
            };
            if self.cur() != Tok::Assign {
                return Err(self.expected("`:='"));
            }
            self.bump();
            let e = match self.expr_bp(0, Ghost(lo)) {
                Ok(x) => x,
                Err(e) => {
                    return Err(e);
                },
            };
            let ghost pushed = (id.model(), e.model());
            let ghost before = acc@;
            acc.push((id, e));
            assert(ident_expr_pairs(acc@) =~= ident_expr_pairs(before).push(pushed));
            if self.cur() == Tok::Comma {
                self.bump();
                continue;
            }
            return Ok(acc);
        }
    }

    /// What follows the first branch of a conditional.
    fn conditional_tail(&mut self, start: Pos, Ghost(lo): Ghost<int>) -> (r: Result<Expr, ParseError>)
        requires
            old(self).wf(),
            lo < old(self).pos,
        ensures
            final(self).wf(),
            final(self).ts() == old(self).ts(),
            match (
                r,
                p_conditional_tail(old(self).ts(), old(self).pos as int, start, grammar(old(self).ts(), lo))
            ) {
                (Ok(v), Ok((m, k))) => v.model() == m && final(self).pos == k && old(self).pos < k,
                (Err(e), Err(f)) => e.model() == f,
                _ => false,
            },
        decreases old(self).ts().len() - old(self).pos, 1nat,
    {
        proof {
            reveal_with_fuel(p_conditional_tail, 1);
        }
        if self.cur() == Tok::Elsif {
            self.bump();
            let cond = match self.expr_bp(0, Ghost(lo)) {
                Ok(x) => x,
                Err(e) => {
                    return Err(e);
                },
            };
            if self.cur() != Tok::Then {
                return Err(self.expected("THEN"));
            }
            self.bump();
            let yes = match self.expr_bp(0, Ghost(lo)) {
                Ok(x) => x,
                Err(e) => {
                    return Err(e);
                },
            };
            let no = match self.conditional_tail(start, Ghost(lo)) {
                Ok(x) => x,
                Err(e) => {
                    return Err(e);
                },
            };
            return Ok(mk_expr(ExprKind::Conditional { cond: Box::new(cond), then_: Box::new(yes), els: Box::new(no), is_elsif: true }, self.span_from(start)));
        }
        if self.cur() != Tok::Else {
            return Err(self.expected("ELSE"));
        }
        self.bump();
        let e = match self.expr_bp(0, Ghost(lo)) {
            Ok(x) => x,
            Err(e) => {
                return Err(e);
            },
        };
        if self.cur() != Tok::Endif {
            return Err(self.expected("ENDIF"));
        }
        self.bump();
        return Ok(e);
    }

    /// `x : T = e`
    fn let_decl(&mut self, Ghost(lo): Ghost<int>) -> (r: Result<LetDecl, ParseError>)
        requires
            old(self).wf(),
            lo < old(self).pos,
        ensures
            final(self).wf(),
            final(self).ts() == old(self).ts(),
            match (r, p_let_decl(old(self).ts(), old(self).pos as int, grammar(old(self).ts(), lo))) {
                (Ok(v), Ok((m, k))) => v.model() == m && final(self).pos == k && old(self).pos < k,
                (Err(e), Err(f)) => e.model() == f,
                _ => false,
            },
        decreases old(self).ts().len() - old(self).pos, 1nat,
    {
        proof {
            reveal(p_let_decl);
        }
        let name = match self.ident(Ghost(lo)) {
            Ok(x) => x,
            Err(e) => {
                return Err(e);
            },
        };
        if self.cur() != Tok::Colon {
            return Err(self.expected("`:'"));
        }
        self.bump();
        let ty = match self.type_inner(Ghost(lo)) {
            Ok(x) => x,
            Err(e) => {
                return Err(e);
            },
        };
        if self.cur() != Tok::Eq {
            return Err(self.expected("`='"));
        }
        self.bump();
        let value = match self.expr_bp(0, Ghost(lo)) {
            Ok(x) => x,
            Err(e) => {
                return Err(e);
            },
        };
        return Ok(LetDecl { name, ty, value });
    }

    /// Local declarations with commas between them.
    fn let_list(&mut self, acc0: Vec<LetDecl>, Ghost(lo): Ghost<int>) -> (r: Result<Vec<LetDecl>, ParseError>)
        requires
            old(self).wf(),
            lo < old(self).pos,
        ensures
            final(self).wf(),
            final(self).ts() == old(self).ts(),
            match (
                r,
                p_let_list(
                    old(self).ts(),
                    old(self).pos as int,
                    let_decl_models(acc0@),
                    grammar(old(self).ts(), lo)
                )
            ) {
                (Ok(v), Ok((m, k))) => let_decl_models(v@) == m && final(self).pos == k && old(self).pos < k,
                (Err(e), Err(f)) => e.model() == f,
                _ => false,
            },
        decreases old(self).ts().len() - old(self).pos, 2nat,
    {
        let mut acc = acc0;
        loop
            invariant
                self.wf(),
                self.ts() == old(self).ts(),
                lo < old(self).pos <= self.pos,
                p_let_list(
                    old(self).ts(),
                    old(self).pos as int,
                    let_decl_models(acc0@),
                    grammar(old(self).ts(), lo)
                ) == p_let_list(
                    old(self).ts(),
                    self.pos as int, let_decl_models(acc@),
                    grammar(old(self).ts(), lo),
                ),
            decreases self.ts().len() - self.pos,
        {
            proof {
                reveal_with_fuel(p_let_list, 1);
            }
            let x = match self.let_decl(Ghost(lo)) {
                Ok(x) => x,
                Err(e) => {
                    return Err(e);
                },
            };
            let item = x;
            let ghost pushed = item.model();
            let ghost before = acc@;
            acc.push(item);
            assert(let_decl_models(acc@) =~= let_decl_models(before).push(pushed));
            if self.cur() == Tok::Comma {
                self.bump();
                continue;
            }
            return Ok(acc);
        }
    }

    /// A step of an access path.
    fn access_argument(&mut self, Ghost(lo): Ghost<int>) -> (r: Result<Access, ParseError>)
        requires
            old(self).wf(),
            lo < old(self).pos,
        ensures
            final(self).wf(),
            final(self).ts() == old(self).ts(),
            match (r, p_access_argument(old(self).ts(), old(self).pos as int, grammar(old(self).ts(), lo))) {
                (Ok(v), Ok((m, k))) => v.model() == m && final(self).pos == k && old(self).pos < k,
                (Err(e), Err(f)) => e.model() == f,
                _ => false,
            },
        decreases old(self).ts().len() - old(self).pos, 1nat,
    {
        proof {
            reveal(p_access_argument);
        }
        if self.cur() == Tok::LBrack {
            self.bump();
            let e = match self.expr_bp(0, Ghost(lo)) {
                Ok(x) => x,
                Err(e) => {
                    return Err(e);
                },
            };
            if self.cur() != Tok::RBrack {
                return Err(self.expected("`]'"));
            }
            self.bump();
            return Ok(Access::Array(e));
        }
        if self.cur() == Tok::Dot {
            self.bump();
            if self.cur() == Tok::Numeral {
                let t = self.take();
                let n = match decimal_u32(&t.text) {
                    Some(n) => n,
                    None => {
                        return Err(ParseError { pos: t.span.start, msg: own("invalid tuple index") });
                    },
                };
                return Ok(Access::Tuple(n));
            }
            let id = match self.ident(Ghost(lo)) {
                Ok(x) => x,
                Err(e) => {
                    return Err(e);
                },
            };
            return Ok(Access::Record(id));
        }
        if self.cur() == Tok::LParen {
            self.bump();
            let none: Vec<Expr> = Vec::new();
            assert(expr_models(none@) =~= Seq::empty());
            let args = match self.expr_plus(none, Ghost(lo)) {
                Ok(x) => x,
                Err(e) => {
                    return Err(e);
                },
            };
            if self.cur() != Tok::RParen {
                return Err(self.expected("`)'"));
            }
            self.bump();
            return Ok(Access::Args(args));
        }
        return Err(self.error("expected an access (`[', `.' or `(')"));
    }

    /// A module.
    fn module_inner(&mut self, Ghost(lo): Ghost<int>) -> (r: Result<Module, ParseError>)
        requires
            old(self).wf(),
            lo < old(self).pos,
        ensures
            final(self).wf(),
            final(self).ts() == old(self).ts(),
            match (r, (grammar(old(self).ts(), lo).module)(old(self).pos as int)) {
                (Ok(v), Ok((m, k))) => v.model() == m && final(self).pos == k && old(self).pos < k
                    && v.parens <= k - old(self).pos,
                (Err(e), Err(f)) => e.model() == f,
                _ => false,
            },
        decreases old(self).ts().len() - old(self).pos, 5nat,
    {
        proof {
            reveal(p_module);
            grammar_rules(self.ts(), lo, self.pos as int);
        }
        let ghost lo = self.pos as int;
        let start = self.start();
        if self.cur() == Tok::Local {
            self.bump();
            let none: Vec<Ident> = Vec::new();
            assert(ident_models(none@) =~= Seq::empty());
            let ids = match self.ident_list(none, Ghost(lo)) {
                Ok(x) => x,
                Err(e) => {
                    return Err(e);
                },
            };
            if self.cur() != Tok::In {
                return Err(self.expected("IN"));
            }
            self.bump();
            let m = match self.module_inner(Ghost(lo)) {
                Ok(x) => x,
                Err(e) => {
                    return Err(e);
                },
            };
            return Ok(mk_module(ModuleKind::Hide(ids, Box::new(m)), self.span_from(start)));
        }
        if self.cur() == Tok::Output {
            self.bump();
            let none: Vec<Ident> = Vec::new();
            assert(ident_models(none@) =~= Seq::empty());
            let ids = match self.ident_list(none, Ghost(lo)) {
                Ok(x) => x,
                Err(e) => {
                    return Err(e);
                },
            };
            if self.cur() != Tok::In {
                return Err(self.expected("IN"));
            }
            self.bump();
            let m = match self.module_inner(Ghost(lo)) {
                Ok(x) => x,
                Err(e) => {
                    return Err(e);
                },
            };
            return Ok(mk_module(ModuleKind::NewOutput(ids, Box::new(m)), self.span_from(start)));
        }
        if self.cur() == Tok::Rename {
            self.bump();
            let none: Vec<(Lhs, Lhs)> = Vec::new();
            assert(lhs_lhs_pairs(none@) =~= Seq::empty());
            let renames = match self.rename_list(none, Ghost(lo)) {
                Ok(x) => x,
                Err(e) => {
                    return Err(e);
                },
            };
            if self.cur() != Tok::In {
                return Err(self.expected("IN"));
            }
            self.bump();
            let m = match self.module_inner(Ghost(lo)) {
                Ok(x) => x,
                Err(e) => {
                    return Err(e);
                },
            };
            return Ok(mk_module(ModuleKind::Rename(renames, Box::new(m)), self.span_from(start)));
        }
        if self.cur() == Tok::With {
            self.bump();
            let none: Vec<NewVarDecl> = Vec::new();
            assert(new_var_decl_models(none@) =~= Seq::empty());
            let decls = match self.new_var_list(none, Ghost(lo)) {
                Ok(x) => x,
                Err(e) => {
                    return Err(e);
                },
            };
            let m = match self.module_inner(Ghost(lo)) {
                Ok(x) => x,
                Err(e) => {
                    return Err(e);
                },
            };
            return Ok(mk_module(ModuleKind::With(decls, Box::new(m)), self.span_from(start)));
        }
        if self.cur() == Tok::Observe {
            self.bump();
            let m1 = match self.module_binary(Ghost(lo)) {
                Ok(x) => x,
                Err(e) => {
                    return Err(e);
                },
            };
            if self.cur() != Tok::With {
                return Err(self.expected("WITH"));
            }
            self.bump();
            let m2 = match self.module_inner(Ghost(lo)) {
                Ok(x) => x,
                Err(e) => {
                    return Err(e);
                },
            };
            return Ok(mk_module(ModuleKind::Observe(Box::new(m1), Box::new(m2)), self.span_from(start)));
        }
        return self.module_binary(Ghost(lo));
    }

    /// Modules composed by `[]` and `||`.
    fn module_binary(&mut self, Ghost(lo): Ghost<int>) -> (r: Result<Module, ParseError>)
        requires
            old(self).wf(),
            lo <= old(self).pos,
        ensures
            final(self).wf(),
            final(self).ts() == old(self).ts(),
            match (r, p_module_binary(old(self).ts(), old(self).pos as int, grammar(old(self).ts(), lo))) {
                (Ok(v), Ok((m, k))) => v.model() == m && final(self).pos == k && old(self).pos < k
                    && v.parens <= k - old(self).pos,
                (Err(e), Err(f)) => e.model() == f,
                _ => false,
            },
        decreases old(self).ts().len() - old(self).pos, 4nat,
    {
        proof {
            reveal(p_module_binary);
        }
        let start = self.start();
        let m = match self.module_sync(Ghost(lo)) {
            Ok(x) => x,
            Err(e) => {
                return Err(e);
            },
        };
        return self.async_tail(start, m, Ghost(lo));
    }

    /// Modules composed by `[]` with the one before.
    fn async_tail(&mut self, start: Pos, m0: Module, Ghost(lo): Ghost<int>) -> (r: Result<Module, ParseError>)
        requires
            old(self).wf(),
            lo < old(self).pos,
        ensures
            final(self).wf(),
            final(self).ts() == old(self).ts(),
            match (
                r,
                p_async_tail(
                    old(self).ts(),
                    old(self).pos as int,
                    start,
                    m0.model(),
                    grammar(old(self).ts(), lo)
                )
            ) {
                (Ok(v), Ok((m, k))) => v.model() == m && final(self).pos == k && old(self).pos <= k
                    && v.parens <= m0.parens + (k - old(self).pos),
                (Err(e), Err(f)) => e.model() == f,
                _ => false,
            },
        decreases old(self).ts().len() - old(self).pos, 1nat,
    {
        let mut m = m0;
        loop
            invariant
                self.wf(),
                self.ts() == old(self).ts(),
                lo < old(self).pos <= self.pos,
                m.parens <= m0.parens,
                p_async_tail(
                    old(self).ts(),
                    old(self).pos as int,
                    start,
                    m0.model(),
                    grammar(old(self).ts(), lo)
                ) == p_async_tail(
                    old(self).ts(),
                    self.pos as int, start, m.model(),
                    grammar(old(self).ts(), lo),
                ),
            decreases self.ts().len() - self.pos,
        {
            proof {
                reveal_with_fuel(p_async_tail, 1);
            }
            if self.cur() == Tok::Async {
                self.bump();
                if (self.cur() == Tok::Local || self.cur() == Tok::Output
                    || self.cur() == Tok::Rename || self.cur() == Tok::With || self.cur() == Tok::Observe) {
                    let rhs = match self.module_inner(Ghost(lo)) {
                        Ok(x) => x,
                        Err(e) => {
                            return Err(e);
                        },
                    };
                    return Ok(mk_module(ModuleKind::Async(Box::new(m), Box::new(rhs)), self.span_from(start)));
                }
                let rhs = match self.module_sync(Ghost(lo)) {
                    Ok(x) => x,
                    Err(e) => {
                        return Err(e);
                    },
                };
                m = mk_module(ModuleKind::Async(Box::new(m), Box::new(rhs)), self.span_from(start));
                continue;
            }
            return Ok(m);
        }
    }

    /// Modules composed by `||`.
    fn module_sync(&mut self, Ghost(lo): Ghost<int>) -> (r: Result<Module, ParseError>)
        requires
            old(self).wf(),
            lo <= old(self).pos,
        ensures
            final(self).wf(),
            final(self).ts() == old(self).ts(),
            match (r, p_module_sync(old(self).ts(), old(self).pos as int, grammar(old(self).ts(), lo))) {
                (Ok(v), Ok((m, k))) => v.model() == m && final(self).pos == k && old(self).pos < k
                    && v.parens <= k - old(self).pos,
                (Err(e), Err(f)) => e.model() == f,
                _ => false,
            },
        decreases old(self).ts().len() - old(self).pos, 3nat,
    {
        proof {
            reveal(p_module_sync);
        }
        let start = self.start();
        let m = match self.module_primary(Ghost(lo)) {
            Ok(x) => x,
            Err(e) => {
                return Err(e);
            },
        };
        return self.sync_tail(start, m, Ghost(lo));
    }

    /// Modules composed by `||` with the one before.
    fn sync_tail(&mut self, start: Pos, m0: Module, Ghost(lo): Ghost<int>) -> (r: Result<Module, ParseError>)
        requires
            old(self).wf(),
            lo < old(self).pos,
        ensures
            final(self).wf(),
            final(self).ts() == old(self).ts(),
            match (
                r,
                p_sync_tail(
                    old(self).ts(),
                    old(self).pos as int,
                    start,
                    m0.model(),
                    grammar(old(self).ts(), lo)
                )
            ) {
                (Ok(v), Ok((m, k))) => v.model() == m && final(self).pos == k && old(self).pos <= k
                    && v.parens <= m0.parens + (k - old(self).pos),
                (Err(e), Err(f)) => e.model() == f,
                _ => false,
            },
        decreases old(self).ts().len() - old(self).pos, 1nat,
    {
        let mut m = m0;
        loop
            invariant
                self.wf(),
                self.ts() == old(self).ts(),
                lo < old(self).pos <= self.pos,
                m.parens <= m0.parens,
                p_sync_tail(
                    old(self).ts(),
                    old(self).pos as int,
                    start,
                    m0.model(),
                    grammar(old(self).ts(), lo)
                ) == p_sync_tail(
                    old(self).ts(),
                    self.pos as int, start, m.model(),
                    grammar(old(self).ts(), lo),
                ),
            decreases self.ts().len() - self.pos,
        {
            proof {
                reveal_with_fuel(p_sync_tail, 1);
            }
            if self.cur() == Tok::Sync {
                self.bump();
                if (self.cur() == Tok::Local || self.cur() == Tok::Output
                    || self.cur() == Tok::Rename || self.cur() == Tok::With || self.cur() == Tok::Observe) {
                    let rhs = match self.module_inner(Ghost(lo)) {
                        Ok(x) => x,
                        Err(e) => {
                            return Err(e);
                        },
                    };
                    return Ok(mk_module(ModuleKind::Sync(Box::new(m), Box::new(rhs)), self.span_from(start)));
                }
                let rhs = match self.module_primary(Ghost(lo)) {
                    Ok(x) => x,
                    Err(e) => {
                        return Err(e);
                    },
                };
                m = mk_module(ModuleKind::Sync(Box::new(m), Box::new(rhs)), self.span_from(start));
                continue;
            }
            return Ok(m);
        }
    }

    /// A module that no operator composes.
    fn module_primary(&mut self, Ghost(lo): Ghost<int>) -> (r: Result<Module, ParseError>)
        requires
            old(self).wf(),
            lo <= old(self).pos,
        ensures
            final(self).wf(),
            final(self).ts() == old(self).ts(),
            match (r, p_module_primary(old(self).ts(), old(self).pos as int, grammar(old(self).ts(), lo))) {
                (Ok(v), Ok((m, k))) => v.model() == m && final(self).pos == k && old(self).pos < k
                    && v.parens <= k - old(self).pos,
                (Err(e), Err(f)) => e.model() == f,
                _ => false,
            },
        decreases old(self).ts().len() - old(self).pos, 2nat,
    {
        proof {
            reveal(p_module_primary);
        }
        let start = self.start();
        if self.cur() == Tok::Begin {
            let base = match self.base_module(Ghost(lo)) {
                Ok(x) => x,
                Err(e) => {
                    return Err(e);
                },
            };
            let span = base.span;
            return Ok(mk_module(ModuleKind::Base(base), span));
        }
        if self.cur() == Tok::LParen && (self.look(1) == Tok::Async || self.look(1) == Tok::Sync) {
            self.bump();
            let is_async = self.cur() == Tok::Async;
            self.bump();
            if self.cur() != Tok::LParen {
                return Err(self.expected("`('"));
            }
            self.bump();
            let none: Vec<VarDecl> = Vec::new();
            assert(var_decl_models(none@) =~= Seq::empty());
            let decls = match self.var_decl_plus(none, Ghost(lo)) {
                Ok(x) => x,
                Err(e) => {
                    return Err(e);
                },
            };
            if self.cur() != Tok::RParen {
                return Err(self.expected("`)'"));
            }
            self.bump();
            if self.cur() != Tok::Colon {
                return Err(self.expected("`:'"));
            }
            self.bump();
            let m = match self.module_inner(Ghost(lo)) {
                Ok(x) => x,
                Err(e) => {
                    return Err(e);
                },
            };
            if self.cur() != Tok::RParen {
                return Err(self.expected("`)'"));
            }
            self.bump();
            if decls.len() != 1 || decls[0].names.len() != 1 {
                return Err(self.error("A single variable declaration is expected in a multi-composition/multi-command."));
            }
            let decl = only_decl(decls);
            if is_async {
                return Ok(mk_module(ModuleKind::MultiAsync(Box::new(decl), Box::new(m)), self.span_from(start)));
            }
            return Ok(mk_module(ModuleKind::MultiSync(Box::new(decl), Box::new(m)), self.span_from(start)));
        }
        if self.cur() == Tok::LParen {
            self.bump();
            let m = match self.module_inner(Ghost(lo)) {
                Ok(x) => x,
                Err(e) => {
                    return Err(e);
                },
            };
            if self.cur() != Tok::RParen {
                return Err(self.expected("`)'"));
            }
            self.bump();
            return Ok(mk_enclosed(m, self.span_from(start)));
        }
        if self.cur() == Tok::Identifier {
            let name = match self.name(Ghost(lo)) {
                Ok(x) => x,
                Err(e) => {
                    return Err(e);
                },
            };
            let none: Vec<Expr> = Vec::new();
            assert(expr_models(none@) =~= Seq::empty());
            if self.cur() == Tok::LBrack {
                self.bump();
                let actuals = match self.expr_plus(none, Ghost(lo)) {
                    Ok(x) => x,
                    Err(e) => {
                        return Err(e);
                    },
                };
                if self.cur() != Tok::RBrack {
                    return Err(self.expected("`]'"));
                }
                self.bump();
                return Ok(mk_module(ModuleKind::Instance(name, actuals), self.span_from(start)));
            }
            return Ok(mk_module(ModuleKind::Instance(name, none), self.span_from(start)));
        }
        return Err(self.unexpected("Unexpected token \"", "\" (module expected)."));
    }

    /// `a TO b`
    fn rename(&mut self, Ghost(lo): Ghost<int>) -> (r: Result<(Lhs, Lhs), ParseError>)
        requires
            old(self).wf(),
            lo < old(self).pos,
        ensures
            final(self).wf(),
            final(self).ts() == old(self).ts(),
            match (r, p_rename(old(self).ts(), old(self).pos as int, grammar(old(self).ts(), lo))) {
                (Ok(v), Ok((m, k))) => (v.0.model(), v.1.model()) == m && final(self).pos == k && old(self).pos < k,
                (Err(e), Err(f)) => e.model() == f,
                _ => false,
            },
        decreases old(self).ts().len() - old(self).pos, 2nat,
    {
        proof {
            reveal(p_rename);
        }
        let l1 = match self.lhs(Ghost(lo)) {
            Ok(x) => x,
            Err(e) => {
                return Err(e);
            },
        };
        if l1.next {
            return Err(self.error("Invalid use of next operator in rename definition."));
        }
        if self.cur() != Tok::To {
            return Err(self.expected("TO"));
        }
        self.bump();
        let l2 = match self.lhs(Ghost(lo)) {
            Ok(x) => x,
            Err(e) => {
                return Err(e);
            },
        };
        if l2.next {
            return Err(self.error("Invalid use of next operator in rename definition."));
        }
        return Ok((l1, l2));
    }

    /// Renamings with commas between them.
    fn rename_list(
        &mut self,
        acc0: Vec<(Lhs, Lhs)>,
        Ghost(lo): Ghost<int>
    ) -> (r: Result<Vec<(Lhs, Lhs)>, ParseError>)
        requires
            old(self).wf(),
            lo < old(self).pos,
        ensures
            final(self).wf(),
            final(self).ts() == old(self).ts(),
            match (
                r,
                p_rename_list(
                    old(self).ts(),
                    old(self).pos as int,
                    lhs_lhs_pairs(acc0@),
                    grammar(old(self).ts(), lo)
                )
            ) {
                (Ok(v), Ok((m, k))) => lhs_lhs_pairs(v@) == m && final(self).pos == k && old(self).pos < k,
                (Err(e), Err(f)) => e.model() == f,
                _ => false,
            },
        decreases old(self).ts().len() - old(self).pos, 3nat,
    {
        let mut acc = acc0;
        loop
            invariant
                self.wf(),
                self.ts() == old(self).ts(),
                lo < old(self).pos <= self.pos,
                p_rename_list(
                    old(self).ts(),
                    old(self).pos as int,
                    lhs_lhs_pairs(acc0@),
                    grammar(old(self).ts(), lo)
                ) == p_rename_list(
                    old(self).ts(),
                    self.pos as int, lhs_lhs_pairs(acc@),
                    grammar(old(self).ts(), lo),
                ),
            decreases self.ts().len() - self.pos,
        {
            proof {
                reveal_with_fuel(p_rename_list, 1);
            }
            let x = match self.rename(Ghost(lo)) {
                Ok(x) => x,
                Err(e) => {
                    return Err(e);
                },
            };
            let ghost pushed = (x.0.model(), x.1.model());
            let ghost before = acc@;
            acc.push(x);
            assert(lhs_lhs_pairs(acc@) =~= lhs_lhs_pairs(before).push(pushed));
            if self.cur() == Tok::Comma {
                self.bump();
                continue;
            }
            return Ok(acc);
        }
    }

    /// Variables that a `WITH` module adds.
    fn new_var_decl(&mut self, Ghost(lo): Ghost<int>) -> (r: Result<NewVarDecl, ParseError>)
        requires
            old(self).wf(),
            lo < old(self).pos,
        ensures
            final(self).wf(),
            final(self).ts() == old(self).ts(),
            match (r, p_new_var_decl(old(self).ts(), old(self).pos as int, grammar(old(self).ts(), lo))) {
                (Ok(v), Ok((m, k))) => v.model() == m && final(self).pos == k && old(self).pos < k,
                (Err(e), Err(f)) => e.model() == f,
                _ => false,
            },
        decreases old(self).ts().len() - old(self).pos, 1nat,
    {
        proof {
            reveal(p_new_var_decl);
        }
        if !((self.cur() == Tok::Input || self.cur() == Tok::Output || self.cur() == Tok::Global)) {
            return Err(self.error("expected INPUT, OUTPUT or GLOBAL declaration in WITH module"));
        }
        let class = if self.cur() == Tok::Input { VarClass::Input } else if self.cur()
            == Tok::Output { VarClass::Output } else { VarClass::Global };
        self.bump();
        let none: Vec<VarDecl> = Vec::new();
        assert(var_decl_models(none@) =~= Seq::empty());
        let decls = match self.var_decl_plus(none, Ghost(lo)) {
            Ok(x) => x,
            Err(e) => {
                return Err(e);
            },
        };
        return Ok(NewVarDecl { class, decls });
    }

    /// Groups of added variables with semicolons between them.
    fn new_var_list(
        &mut self,
        acc0: Vec<NewVarDecl>,
        Ghost(lo): Ghost<int>
    ) -> (r: Result<Vec<NewVarDecl>, ParseError>)
        requires
            old(self).wf(),
            lo < old(self).pos,
        ensures
            final(self).wf(),
            final(self).ts() == old(self).ts(),
            match (
                r,
                p_new_var_list(
                    old(self).ts(),
                    old(self).pos as int,
                    new_var_decl_models(acc0@),
                    grammar(old(self).ts(), lo)
                )
            ) {
                (Ok(v), Ok((m, k))) => new_var_decl_models(v@) == m && final(self).pos == k && old(self).pos < k,
                (Err(e), Err(f)) => e.model() == f,
                _ => false,
            },
        decreases old(self).ts().len() - old(self).pos, 2nat,
    {
        let mut acc = acc0;
        loop
            invariant
                self.wf(),
                self.ts() == old(self).ts(),
                lo < old(self).pos <= self.pos,
                p_new_var_list(
                    old(self).ts(),
                    old(self).pos as int,
                    new_var_decl_models(acc0@),
                    grammar(old(self).ts(), lo)
                ) == p_new_var_list(
                    old(self).ts(),
                    self.pos as int, new_var_decl_models(acc@),
                    grammar(old(self).ts(), lo),
                ),
            decreases self.ts().len() - self.pos,
        {
            proof {
                reveal_with_fuel(p_new_var_list, 1);
            }
            let x = match self.new_var_decl(Ghost(lo)) {
                Ok(x) => x,
                Err(e) => {
                    return Err(e);
                },
            };
            let item = x;
            let ghost pushed = item.model();
            let ghost before = acc@;
            acc.push(item);
            assert(new_var_decl_models(acc@) =~= new_var_decl_models(before).push(pushed));
            if self.cur() == Tok::Semi {
                self.bump();
                continue;
            }
            return Ok(acc);
        }
    }

    /// A base module.
    fn base_module(&mut self, Ghost(lo): Ghost<int>) -> (r: Result<BaseModule, ParseError>)
        requires
            old(self).wf(),
            lo <= old(self).pos,
        ensures
            final(self).wf(),
            final(self).ts() == old(self).ts(),
            match (r, p_base_module(old(self).ts(), old(self).pos as int, grammar(old(self).ts(), lo))) {
                (Ok(v), Ok((m, k))) => v.model() == m && final(self).pos == k && old(self).pos < k,
                (Err(e), Err(f)) => e.model() == f,
                _ => false,
            },
        decreases old(self).ts().len() - old(self).pos, 1nat,
    {
        proof {
            reveal(p_base_module);
        }
        let start = self.start();
        if self.cur() != Tok::Begin {
            return Err(self.expected("BEGIN"));
        }
        self.bump();
        let none: Vec<BaseDecl> = Vec::new();
        assert(base_decl_models(none@) =~= Seq::empty());
        let decls = match self.sections(none, Ghost(lo)) {
            Ok(x) => x,
            Err(e) => {
                return Err(e);
            },
        };
        return Ok(BaseModule { decls, span: self.span_from(start) });
    }

    /// The sections of a base module, up to its end.
    fn sections(&mut self, acc0: Vec<BaseDecl>, Ghost(lo): Ghost<int>) -> (r: Result<Vec<BaseDecl>, ParseError>)
        requires
            old(self).wf(),
            lo < old(self).pos,
        ensures
            final(self).wf(),
            final(self).ts() == old(self).ts(),
            match (
                r,
                p_sections(
                    old(self).ts(),
                    old(self).pos as int,
                    base_decl_models(acc0@),
                    grammar(old(self).ts(), lo)
                )
            ) {
                (Ok(v), Ok((m, k))) => base_decl_models(v@) == m && final(self).pos == k && old(self).pos < k,
                (Err(e), Err(f)) => e.model() == f,
                _ => false,
            },
        decreases old(self).ts().len() - old(self).pos, 1nat,
    {
        let mut acc = acc0;
        loop
            invariant
                self.wf(),
                self.ts() == old(self).ts(),
                lo < old(self).pos <= self.pos,
                p_sections(
                    old(self).ts(),
                    old(self).pos as int,
                    base_decl_models(acc0@),
                    grammar(old(self).ts(), lo)
                ) == p_sections(
                    old(self).ts(),
                    self.pos as int, base_decl_models(acc@),
                    grammar(old(self).ts(), lo),
                ),
            decreases self.ts().len() - self.pos,
        {
            proof {
                reveal_with_fuel(p_sections, 1);
            }
            if self.cur() == Tok::Input {
                self.bump();
                let none: Vec<VarDecl> = Vec::new();
                assert(var_decl_models(none@) =~= Seq::empty());
                let ds = match self.var_decl_plus(none, Ghost(lo)) {
                    Ok(x) => x,
                    Err(e) => {
                        return Err(e);
                    },
                };
                let item = BaseDecl::Vars(VarClass::Input, ds);
                let ghost pushed = item.model();
                let ghost before = acc@;
                acc.push(item);
                assert(base_decl_models(acc@) =~= base_decl_models(before).push(pushed));
                continue;
            }
            if self.cur() == Tok::Output {
                self.bump();
                let none: Vec<VarDecl> = Vec::new();
                assert(var_decl_models(none@) =~= Seq::empty());
                let ds = match self.var_decl_plus(none, Ghost(lo)) {
                    Ok(x) => x,
                    Err(e) => {
                        return Err(e);
                    },
                };
                let item = BaseDecl::Vars(VarClass::Output, ds);
                let ghost pushed = item.model();
                let ghost before = acc@;
                acc.push(item);
                assert(base_decl_models(acc@) =~= base_decl_models(before).push(pushed));
                continue;
            }
            if self.cur() == Tok::Global {
                self.bump();
                let none: Vec<VarDecl> = Vec::new();
                assert(var_decl_models(none@) =~= Seq::empty());
                let ds = match self.var_decl_plus(none, Ghost(lo)) {
                    Ok(x) => x,
                    Err(e) => {
                        return Err(e);
                    },
                };
                let item = BaseDecl::Vars(VarClass::Global, ds);
                let ghost pushed = item.model();
                let ghost before = acc@;
                acc.push(item);
                assert(base_decl_models(acc@) =~= base_decl_models(before).push(pushed));
                continue;
            }
            if self.cur() == Tok::Local {
                self.bump();
                let none: Vec<VarDecl> = Vec::new();
                assert(var_decl_models(none@) =~= Seq::empty());
                let ds = match self.var_decl_plus(none, Ghost(lo)) {
                    Ok(x) => x,
                    Err(e) => {
                        return Err(e);
                    },
                };
                let item = BaseDecl::Vars(VarClass::Local, ds);
                let ghost pushed = item.model();
                let ghost before = acc@;
                acc.push(item);
                assert(base_decl_models(acc@) =~= base_decl_models(before).push(pushed));
                continue;
            }
            if self.cur() == Tok::Definition {
                self.bump();
                let none: Vec<Definition> = Vec::new();
                assert(definition_models(none@) =~= Seq::empty());
                let ds = match self.definition_plus(none, Ghost(lo)) {
                    Ok(x) => x,
                    Err(e) => {
                        return Err(e);
                    },
                };
                let item = BaseDecl::Definition(ds);
                let ghost pushed = item.model();
                let ghost before = acc@;
                acc.push(item);
                assert(base_decl_models(acc@) =~= base_decl_models(before).push(pushed));
                continue;
            }
            if self.cur() == Tok::Initialization {
                self.bump();
                let none: Vec<DefOrCommand> = Vec::new();
                assert(def_or_command_models(none@) =~= Seq::empty());
                let ds = match self.def_or_command_plus(none, Ghost(lo)) {
                    Ok(x) => x,
                    Err(e) => {
                        return Err(e);
                    },
                };
                let item = BaseDecl::Initialization(ds);
                let ghost pushed = item.model();
                let ghost before = acc@;
                acc.push(item);
                assert(base_decl_models(acc@) =~= base_decl_models(before).push(pushed));
                continue;
            }
            if self.cur() == Tok::Transition {
                self.bump();
                let none: Vec<DefOrCommand> = Vec::new();
                assert(def_or_command_models(none@) =~= Seq::empty());
                let ds = match self.def_or_command_plus(none, Ghost(lo)) {
                    Ok(x) => x,
                    Err(e) => {
                        return Err(e);
                    },
                };
                let item = BaseDecl::Transition(ds);
                let ghost pushed = item.model();
                let ghost before = acc@;
                acc.push(item);
                assert(base_decl_models(acc@) =~= base_decl_models(before).push(pushed));
                continue;
            }
            if self.cur() == Tok::End {
                self.bump();
                return Ok(acc);
            }
            return Err(self.unexpected("Unexpected token \"", "\" in base module."));
        }
    }

    /// Definitions with semicolons between them, and possibly one behind the last.
    fn definition_plus(
        &mut self,
        acc0: Vec<Definition>,
        Ghost(lo): Ghost<int>
    ) -> (r: Result<Vec<Definition>, ParseError>)
        requires
            old(self).wf(),
            lo < old(self).pos,
        ensures
            final(self).wf(),
            final(self).ts() == old(self).ts(),
            match (
                r,
                p_definition_plus(
                    old(self).ts(),
                    old(self).pos as int,
                    definition_models(acc0@),
                    grammar(old(self).ts(), lo)
                )
            ) {
                (Ok(v), Ok((m, k))) => definition_models(v@) == m && final(self).pos == k && old(self).pos < k,
                (Err(e), Err(f)) => e.model() == f,
                _ => false,
            },
        decreases old(self).ts().len() - old(self).pos, 5nat,
    {
        let mut acc = acc0;
        loop
            invariant
                self.wf(),
                self.ts() == old(self).ts(),
                lo < old(self).pos <= self.pos,
                p_definition_plus(
                    old(self).ts(),
                    old(self).pos as int,
                    definition_models(acc0@),
                    grammar(old(self).ts(), lo)
                ) == p_definition_plus(
                    old(self).ts(),
                    self.pos as int, definition_models(acc@),
                    grammar(old(self).ts(), lo),
                ),
            decreases self.ts().len() - self.pos,
        {
            proof {
                reveal_with_fuel(p_definition_plus, 1);
            }
            let x = match self.definition(Ghost(lo)) {
                Ok(x) => x,
                Err(e) => {
                    return Err(e);
                },
            };
            let item = x;
            let ghost pushed = item.model();
            let ghost before = acc@;
            acc.push(item);
            assert(definition_models(acc@) =~= definition_models(before).push(pushed));
            if self.cur() == Tok::Semi {
                self.bump();
                if (self.cur() == Tok::Input || self.cur() == Tok::Output
                    || self.cur() == Tok::Global || self.cur() == Tok::Local || self.cur() == Tok::Definition
                    || self.cur() == Tok::Initialization || self.cur() == Tok::Transition || self.cur() == Tok::End) {
                    return Ok(acc);
                }
                continue;
            }
            return Ok(acc);
        }
    }

    /// A definition.
    fn definition(&mut self, Ghost(lo): Ghost<int>) -> (r: Result<Definition, ParseError>)
        requires
            old(self).wf(),
            lo < old(self).pos,
        ensures
            final(self).wf(),
            final(self).ts() == old(self).ts(),
            match (r, (grammar(old(self).ts(), lo).def)(old(self).pos as int)) {
                (Ok(v), Ok((m, k))) => v.model() == m && final(self).pos == k && old(self).pos < k,
                (Err(e), Err(f)) => e.model() == f,
                _ => false,
            },
        decreases old(self).ts().len() - old(self).pos, 4nat,
    {
        proof {
            reveal(p_definition);
            grammar_rules(self.ts(), lo, self.pos as int);
        }
        let ghost lo = self.pos as int;
        if self.cur() == Tok::LParen && self.look(1) == Tok::Forall {
            return self.forall_definition(Ghost(lo));
        }
        return self.simple_definition(Ghost(lo));
    }

    /// `(FORALL (decls) : defs)`
    fn forall_definition(&mut self, Ghost(lo): Ghost<int>) -> (r: Result<Definition, ParseError>)
        requires
            old(self).wf(),
            lo <= old(self).pos,
        ensures
            final(self).wf(),
            final(self).ts() == old(self).ts(),
            match (r, p_forall_definition(old(self).ts(), old(self).pos as int, grammar(old(self).ts(), lo))) {
                (Ok(v), Ok((m, k))) => v.model() == m && final(self).pos == k && old(self).pos < k,
                (Err(e), Err(f)) => e.model() == f,
                _ => false,
            },
        decreases old(self).ts().len() - old(self).pos, 3nat,
    {
        proof {
            reveal(p_forall_definition);
        }
        if !(self.cur() == Tok::LParen) {
            return Err(self.error("expected `=' or IN in definition"));
        }
        self.bump();
        if !(self.cur() == Tok::Forall) {
            return Err(self.error("expected `=' or IN in definition"));
        }
        self.bump();
        if self.cur() != Tok::LParen {
            return Err(self.expected("`('"));
        }
        self.bump();
        let none: Vec<VarDecl> = Vec::new();
        assert(var_decl_models(none@) =~= Seq::empty());
        let decls = match self.var_decl_plus(none, Ghost(lo)) {
            Ok(x) => x,
            Err(e) => {
                return Err(e);
            },
        };
        if self.cur() != Tok::RParen {
            return Err(self.expected("`)'"));
        }
        self.bump();
        if self.cur() != Tok::Colon {
            return Err(self.expected("`:'"));
        }
        self.bump();
        let nodefs: Vec<Definition> = Vec::new();
        assert(definition_models(nodefs@) =~= Seq::empty());
        let defs = match self.definition_plus(nodefs, Ghost(lo)) {
            Ok(x) => x,
            Err(e) => {
                return Err(e);
            },
        };
        if self.cur() != Tok::RParen {
            return Err(self.expected("`)'"));
        }
        self.bump();
        return Ok(Definition::Forall(decls, defs));
    }

    /// A definition of one left side.
    fn simple_definition(&mut self, Ghost(lo): Ghost<int>) -> (r: Result<Definition, ParseError>)
        requires
            old(self).wf(),
            lo <= old(self).pos,
        ensures
            final(self).wf(),
            final(self).ts() == old(self).ts(),
            match (r, p_simple_definition(old(self).ts(), old(self).pos as int, grammar(old(self).ts(), lo))) {
                (Ok(v), Ok((m, k))) => v.model() == m && final(self).pos == k && old(self).pos < k,
                (Err(e), Err(f)) => e.model() == f,
                _ => false,
            },
        decreases old(self).ts().len() - old(self).pos, 3nat,
    {
        proof {
            reveal(p_simple_definition);
        }
        let start = self.start();
        let lhs = match self.lhs(Ghost(lo)) {
            Ok(x) => x,
            Err(e) => {
                return Err(e);
            },
        };
        let rhs = match self.right_side(Ghost(lo)) {
            Ok(x) => x,
            Err(e) => {
                return Err(e);
            },
        };
        let def = SimpleDefinition { lhs, rhs, span: self.span_from(start) };
        let ghost def_value = def.model();
        return Ok(Definition::Simple(def));
    }

    /// `= e` or `IN e`
    fn right_side(&mut self, Ghost(lo): Ghost<int>) -> (r: Result<Rhs, ParseError>)
        requires
            old(self).wf(),
            lo < old(self).pos,
        ensures
            final(self).wf(),
            final(self).ts() == old(self).ts(),
            match (r, p_right_side(old(self).ts(), old(self).pos as int, grammar(old(self).ts(), lo))) {
                (Ok(v), Ok((m, k))) => v.model() == m && final(self).pos == k && old(self).pos < k,
                (Err(e), Err(f)) => e.model() == f,
                _ => false,
            },
        decreases old(self).ts().len() - old(self).pos, 1nat,
    {
        proof {
            reveal(p_right_side);
        }
        if self.cur() == Tok::Eq {
            self.bump();
            let e = match self.expr_bp(0, Ghost(lo)) {
                Ok(x) => x,
                Err(e) => {
                    return Err(e);
                },
            };
            return Ok(Rhs::Expr(e));
        }
        if self.cur() == Tok::In {
            self.bump();
            let e = match self.expr_bp(0, Ghost(lo)) {
                Ok(x) => x,
                Err(e) => {
                    return Err(e);
                },
            };
            return Ok(Rhs::Selection(e));
        }
        return Err(self.error("expected `=' or IN in definition"));
    }

    /// The left side of a definition.
    fn lhs(&mut self, Ghost(lo): Ghost<int>) -> (r: Result<Lhs, ParseError>)
        requires
            old(self).wf(),
            lo <= old(self).pos,
        ensures
            final(self).wf(),
            final(self).ts() == old(self).ts(),
            match (r, p_lhs(old(self).ts(), old(self).pos as int, grammar(old(self).ts(), lo))) {
                (Ok(v), Ok((m, k))) => v.model() == m && final(self).pos == k && old(self).pos < k,
                (Err(e), Err(f)) => e.model() == f,
                _ => false,
            },
        decreases old(self).ts().len() - old(self).pos, 1nat,
    {
        proof {
            reveal(p_lhs);
        }
        let start = self.start();
        let base = match self.ident(Ghost(lo)) {
            Ok(x) => x,
            Err(e) => {
                return Err(e);
            },
        };
        let none: Vec<Access> = Vec::new();
        assert(access_models(none@) =~= Seq::empty());
        if self.cur() == Tok::Quote {
            self.bump();
            let accesses = match self.lhs_accesses(none, Ghost(lo)) {
                Ok(x) => x,
                Err(e) => {
                    return Err(e);
                },
            };
            return Ok(Lhs { base, next: true, accesses, span: self.span_from(start) });
        }
        let accesses = match self.lhs_accesses(none, Ghost(lo)) {
            Ok(x) => x,
            Err(e) => {
                return Err(e);
            },
        };
        return Ok(Lhs { base, next: false, accesses, span: self.span_from(start) });
    }

    /// The accesses of a left side.
    fn lhs_accesses(&mut self, acc0: Vec<Access>, Ghost(lo): Ghost<int>) -> (r: Result<Vec<Access>, ParseError>)
        requires
            old(self).wf(),
            lo < old(self).pos,
        ensures
            final(self).wf(),
            final(self).ts() == old(self).ts(),
            match (
                r,
                p_lhs_accesses(
                    old(self).ts(),
                    old(self).pos as int,
                    access_models(acc0@),
                    grammar(old(self).ts(), lo)
                )
            ) {
                (Ok(v), Ok((m, k))) => access_models(v@) == m && final(self).pos == k && old(self).pos <= k,
                (Err(e), Err(f)) => e.model() == f,
                _ => false,
            },
        decreases old(self).ts().len() - old(self).pos, 1nat,
    {
        let mut acc = acc0;
        loop
            invariant
                self.wf(),
                self.ts() == old(self).ts(),
                lo < old(self).pos <= self.pos,
                p_lhs_accesses(
                    old(self).ts(),
                    old(self).pos as int,
                    access_models(acc0@),
                    grammar(old(self).ts(), lo)
                ) == p_lhs_accesses(
                    old(self).ts(),
                    self.pos as int, access_models(acc@),
                    grammar(old(self).ts(), lo),
                ),
            decreases self.ts().len() - self.pos,
        {
            proof {
                reveal_with_fuel(p_lhs_accesses, 1);
            }
            if self.cur() == Tok::LBrack {
                self.bump();
                let e = match self.expr_bp(0, Ghost(lo)) {
                    Ok(x) => x,
                    Err(e) => {
                        return Err(e);
                    },
                };
                if self.cur() != Tok::RBrack {
                    return Err(self.expected("`]'"));
                }
                self.bump();
                let item = Access::Array(e);
                let ghost pushed = item.model();
                let ghost before = acc@;
                acc.push(item);
                assert(access_models(acc@) =~= access_models(before).push(pushed));
                continue;
            }
            if self.cur() == Tok::Dot {
                self.bump();
                if self.cur() == Tok::Numeral {
                    let t = self.take();
                    let n = match decimal_u32(&t.text) {
                        Some(n) => n,
                        None => {
                            return Err(ParseError { pos: t.span.start, msg: own("invalid tuple index") });
                        },
                    };
                    let item = Access::Tuple(n);
                    let ghost pushed = item.model();
                    let ghost before = acc@;
                    acc.push(item);
                    assert(access_models(acc@) =~= access_models(before).push(pushed));
                    continue;
                }
                let id = match self.ident(Ghost(lo)) {
                    Ok(x) => x,
                    Err(e) => {
                        return Err(e);
                    },
                };
                let item = Access::Record(id);
                let ghost pushed = item.model();
                let ghost before = acc@;
                acc.push(item);
                assert(access_models(acc@) =~= access_models(before).push(pushed));
                continue;
            }
            return Ok(acc);
        }
    }

    /// Definitions and choices with semicolons between them, and possibly one behind the last.
    fn def_or_command_plus(
        &mut self,
        acc0: Vec<DefOrCommand>,
        Ghost(lo): Ghost<int>
    ) -> (r: Result<Vec<DefOrCommand>, ParseError>)
        requires
            old(self).wf(),
            lo < old(self).pos,
        ensures
            final(self).wf(),
            final(self).ts() == old(self).ts(),
            match (
                r,
                p_def_or_command_plus(
                    old(self).ts(),
                    old(self).pos as int,
                    def_or_command_models(acc0@),
                    grammar(old(self).ts(), lo)
                )
            ) {
                (Ok(v), Ok((m, k))) => def_or_command_models(v@) == m && final(self).pos == k && old(self).pos < k,
                (Err(e), Err(f)) => e.model() == f,
                _ => false,
            },
        decreases old(self).ts().len() - old(self).pos, 6nat,
    {
        let mut acc = acc0;
        loop
            invariant
                self.wf(),
                self.ts() == old(self).ts(),
                lo < old(self).pos <= self.pos,
                p_def_or_command_plus(
                    old(self).ts(),
                    old(self).pos as int,
                    def_or_command_models(acc0@),
                    grammar(old(self).ts(), lo)
                ) == p_def_or_command_plus(
                    old(self).ts(),
                    self.pos as int, def_or_command_models(acc@),
                    grammar(old(self).ts(), lo),
                ),
            decreases self.ts().len() - self.pos,
        {
            proof {
                reveal_with_fuel(p_def_or_command_plus, 1);
            }
            let x = match self.def_or_command(Ghost(lo)) {
                Ok(x) => x,
                Err(e) => {
                    return Err(e);
                },
            };
            let item = x;
            let ghost pushed = item.model();
            let ghost before = acc@;
            acc.push(item);
            assert(def_or_command_models(acc@) =~= def_or_command_models(before).push(pushed));
            if self.cur() == Tok::Semi {
                self.bump();
                if (self.cur() == Tok::Input || self.cur() == Tok::Output
                    || self.cur() == Tok::Global || self.cur() == Tok::Local || self.cur() == Tok::Definition
                    || self.cur() == Tok::Initialization || self.cur() == Tok::Transition || self.cur() == Tok::End) {
                    return Ok(acc);
                }
                continue;
            }
            return Ok(acc);
        }
    }

    /// A definition, or a choice of commands.
    fn def_or_command(&mut self, Ghost(lo): Ghost<int>) -> (r: Result<DefOrCommand, ParseError>)
        requires
            old(self).wf(),
            lo < old(self).pos,
        ensures
            final(self).wf(),
            final(self).ts() == old(self).ts(),
            match (r, p_def_or_command(old(self).ts(), old(self).pos as int, grammar(old(self).ts(), lo))) {
                (Ok(v), Ok((m, k))) => v.model() == m && final(self).pos == k && old(self).pos < k,
                (Err(e), Err(f)) => e.model() == f,
                _ => false,
            },
        decreases old(self).ts().len() - old(self).pos, 5nat,
    {
        proof {
            reveal(p_def_or_command);
        }
        let start = self.start();
        if self.cur() == Tok::LBrack {
            self.bump();
            let none: Vec<SomeCommand> = Vec::new();
            assert(some_command_models(none@) =~= Seq::empty());
            let cmds = match self.command_list(none, Ghost(lo)) {
                Ok(x) => x,
                Err(e) => {
                    return Err(e);
                },
            };
            if self.cur() != Tok::RBrack {
                return Err(self.expected("`]'"));
            }
            self.bump();
            let early = find_early_else(&cmds);
            if early.is_some() {
                let at = early.unwrap();
                return Err(ParseError { pos: at, msg: own("Invalid occurrence of ELSE command. ELSE command must be the last command in the command list.") });
            }
            return Ok(DefOrCommand::Commands(cmds, self.span_from(start)));
        }
        let d = match self.definition(Ghost(lo)) {
            Ok(x) => x,
            Err(e) => {
                return Err(e);
            },
        };
        return Ok(DefOrCommand::Def(d));
    }

    /// Commands with `[]` between them.
    fn command_list(
        &mut self,
        acc0: Vec<SomeCommand>,
        Ghost(lo): Ghost<int>
    ) -> (r: Result<Vec<SomeCommand>, ParseError>)
        requires
            old(self).wf(),
            lo < old(self).pos,
        ensures
            final(self).wf(),
            final(self).ts() == old(self).ts(),
            match (
                r,
                p_command_list(
                    old(self).ts(),
                    old(self).pos as int,
                    some_command_models(acc0@),
                    grammar(old(self).ts(), lo)
                )
            ) {
                (Ok(v), Ok((m, k))) => some_command_models(v@) == m && final(self).pos == k && old(self).pos < k,
                (Err(e), Err(f)) => e.model() == f,
                _ => false,
            },
        decreases old(self).ts().len() - old(self).pos, 10nat,
    {
        let mut acc = acc0;
        loop
            invariant
                self.wf(),
                self.ts() == old(self).ts(),
                lo < old(self).pos <= self.pos,
                p_command_list(
                    old(self).ts(),
                    old(self).pos as int,
                    some_command_models(acc0@),
                    grammar(old(self).ts(), lo)
                ) == p_command_list(
                    old(self).ts(),
                    self.pos as int, some_command_models(acc@),
                    grammar(old(self).ts(), lo),
                ),
            decreases self.ts().len() - self.pos,
        {
            proof {
                reveal_with_fuel(p_command_list, 1);
            }
            let x = match self.some_command(Ghost(lo)) {
                Ok(x) => x,
                Err(e) => {
                    return Err(e);
                },
            };
            let item = x;
            let ghost pushed = item.model();
            let ghost before = acc@;
            acc.push(item);
            assert(some_command_models(acc@) =~= some_command_models(before).push(pushed));
            if self.cur() == Tok::Async {
                self.bump();
                continue;
            }
            return Ok(acc);
        }
    }

    /// A command.
    fn some_command(&mut self, Ghost(lo): Ghost<int>) -> (r: Result<SomeCommand, ParseError>)
        requires
            old(self).wf(),
            lo < old(self).pos,
        ensures
            final(self).wf(),
            final(self).ts() == old(self).ts(),
            match (r, p_some_command(old(self).ts(), old(self).pos as int, grammar(old(self).ts(), lo))) {
                (Ok(v), Ok((m, k))) => v.model() == m && final(self).pos == k && old(self).pos < k,
                (Err(e), Err(f)) => e.model() == f,
                _ => false,
            },
        decreases old(self).ts().len() - old(self).pos, 9nat,
    {
        proof {
            reveal_with_fuel(p_some_command, 1);
        }
        let start = self.start();
        if self.cur() == Tok::LParen && self.look(1) == Tok::Async {
            self.bump();
            self.bump();
            if self.cur() != Tok::LParen {
                return Err(self.expected("`('"));
            }
            self.bump();
            let none: Vec<VarDecl> = Vec::new();
            assert(var_decl_models(none@) =~= Seq::empty());
            let decls = match self.var_decl_plus(none, Ghost(lo)) {
                Ok(x) => x,
                Err(e) => {
                    return Err(e);
                },
            };
            if self.cur() != Tok::RParen {
                return Err(self.expected("`)'"));
            }
            self.bump();
            if self.cur() != Tok::Colon {
                return Err(self.expected("`:'"));
            }
            self.bump();
            let inner = match self.some_command(Ghost(lo)) {
                Ok(x) => x,
                Err(e) => {
                    return Err(e);
                },
            };
            if self.cur() != Tok::RParen {
                return Err(self.expected("`)'"));
            }
            self.bump();
            if is_else_command(&inner) {
                return Err(ParseError { pos: start, msg: own("Invalid multi-command. ELSE commands cannot be nested in multi-commands.") });
            }
            return Ok(SomeCommand::Multi(decls, Box::new(inner), self.span_from(start)));
        }
        if self.cur() == Tok::Identifier && self.look(1) == Tok::Colon {
            let id = match self.ident(Ghost(lo)) {
                Ok(x) => x,
                Err(e) => {
                    return Err(e);
                },
            };
            if self.cur() != Tok::Colon {
                return Err(self.expected("`:'"));
            }
            self.bump();
            if self.cur() == Tok::LParen && self.look(1) == Tok::Async {
                return Err(ParseError { pos: id.span.start, msg: own("Only guarded commands can be labeled. Move the identifier to the nested guarded command.") });
            }
            return self.guarded(start, Some(id), Ghost(lo));
        }
        return self.guarded(start, None, Ghost(lo));
    }

    /// A guarded command behind its label.
    fn guarded(
        &mut self,
        start: Pos,
        label: Option<Ident>,
        Ghost(lo): Ghost<int>
    ) -> (r: Result<SomeCommand, ParseError>)
        requires
            old(self).wf(),
            lo < old(self).pos,
        ensures
            final(self).wf(),
            final(self).ts() == old(self).ts(),
            match (
                r,
                p_guarded(
                    old(self).ts(),
                    old(self).pos as int,
                    start,
                    opt_ident(label),
                    grammar(old(self).ts(), lo)
                )
            ) {
                (Ok(v), Ok((m, k))) => v.model() == m && final(self).pos == k && old(self).pos < k,
                (Err(e), Err(f)) => e.model() == f,
                _ => false,
            },
        decreases old(self).ts().len() - old(self).pos, 8nat,
    {
        proof {
            reveal(p_guarded);
        }
        let guard = match self.guard(Ghost(lo)) {
            Ok(x) => x,
            Err(e) => {
                return Err(e);
            },
        };
        if self.cur() != Tok::LongArrow {
            return Err(self.expected("`-->'"));
        }
        self.bump();
        let none: Vec<Definition> = Vec::new();
        assert(definition_models(none@) =~= Seq::empty());
        let assignments = match self.assignments_opt(none, Ghost(lo)) {
            Ok(x) => x,
            Err(e) => {
                return Err(e);
            },
        };
        let cmd = GuardedCommand { label, guard, assignments, span: self.span_from(start) };
        let ghost cmd_value = cmd.model();
        return Ok(SomeCommand::Guarded(cmd));
    }

    /// A guard, or `ELSE`.
    fn guard(&mut self, Ghost(lo): Ghost<int>) -> (r: Result<Option<Expr>, ParseError>)
        requires
            old(self).wf(),
            lo < old(self).pos,
        ensures
            final(self).wf(),
            final(self).ts() == old(self).ts(),
            match (r, p_guard(old(self).ts(), old(self).pos as int, grammar(old(self).ts(), lo))) {
                (Ok(v), Ok((m, k))) => opt_expr(v) == m && final(self).pos == k && old(self).pos < k,
                (Err(e), Err(f)) => e.model() == f,
                _ => false,
            },
        decreases old(self).ts().len() - old(self).pos, 7nat,
    {
        proof {
            reveal(p_guard);
        }
        if self.cur() == Tok::Else {
            self.bump();
            return Ok(None);
        }
        let e = match self.expr_bp(0, Ghost(lo)) {
            Ok(x) => x,
            Err(e) => {
                return Err(e);
            },
        };
        return Ok(Some(e));
    }

    /// The assignments of a command, possibly none.
    fn assignments_opt(
        &mut self,
        none: Vec<Definition>,
        Ghost(lo): Ghost<int>
    ) -> (r: Result<Vec<Definition>, ParseError>)
        requires
            old(self).wf(),
            lo < old(self).pos,
        ensures
            final(self).wf(),
            final(self).ts() == old(self).ts(),
            match (
                r,
                p_assignments_opt(
                    old(self).ts(),
                    old(self).pos as int,
                    definition_models(none@),
                    grammar(old(self).ts(), lo)
                )
            ) {
                (Ok(v), Ok((m, k))) => definition_models(v@) == m && final(self).pos == k && old(self).pos <= k,
                (Err(e), Err(f)) => e.model() == f,
                _ => false,
            },
        decreases old(self).ts().len() - old(self).pos, 6nat,
    {
        proof {
            reveal(p_assignments_opt);
        }
        if (self.cur() == Tok::Async || self.cur() == Tok::RBrack || self.cur() == Tok::RParen) {
            return Ok(none);
        }
        return self.assignments(none, Ghost(lo));
    }

    /// The assignments of a command, at least one.
    fn assignments(
        &mut self,
        acc0: Vec<Definition>,
        Ghost(lo): Ghost<int>
    ) -> (r: Result<Vec<Definition>, ParseError>)
        requires
            old(self).wf(),
            lo < old(self).pos,
        ensures
            final(self).wf(),
            final(self).ts() == old(self).ts(),
            match (
                r,
                p_assignments(
                    old(self).ts(),
                    old(self).pos as int,
                    definition_models(acc0@),
                    grammar(old(self).ts(), lo)
                )
            ) {
                (Ok(v), Ok((m, k))) => definition_models(v@) == m && final(self).pos == k && old(self).pos < k,
                (Err(e), Err(f)) => e.model() == f,
                _ => false,
            },
        decreases old(self).ts().len() - old(self).pos, 5nat,
    {
        let mut acc = acc0;
        loop
            invariant
                self.wf(),
                self.ts() == old(self).ts(),
                lo < old(self).pos <= self.pos,
                p_assignments(
                    old(self).ts(),
                    old(self).pos as int,
                    definition_models(acc0@),
                    grammar(old(self).ts(), lo)
                ) == p_assignments(
                    old(self).ts(),
                    self.pos as int, definition_models(acc@),
                    grammar(old(self).ts(), lo),
                ),
            decreases self.ts().len() - self.pos,
        {
            proof {
                reveal_with_fuel(p_assignments, 1);
            }
            let x = match self.definition(Ghost(lo)) {
                Ok(x) => x,
                Err(e) => {
                    return Err(e);
                },
            };
            let item = x;
            let ghost pushed = item.model();
            let ghost before = acc@;
            acc.push(item);
            assert(definition_models(acc@) =~= definition_models(before).push(pushed));
            if self.cur() == Tok::Semi {
                self.bump();
                if (self.cur() == Tok::Async || self.cur() == Tok::RBrack
                    || self.cur() == Tok::RParen || self.cur() == Tok::Input || self.cur() == Tok::Output
                    || self.cur() == Tok::Global || self.cur() == Tok::Local || self.cur() == Tok::Definition
                    || self.cur() == Tok::Initialization || self.cur() == Tok::Transition || self.cur() == Tok::End) {
                    return Ok(acc);
                }
                continue;
            }
            return Ok(acc);
        }
    }

    /// A context.
    fn context_inner(&mut self, Ghost(lo): Ghost<int>) -> (r: Result<SalContext, ParseError>)
        requires
            old(self).wf(),
            lo < old(self).pos,
        ensures
            final(self).wf(),
            final(self).ts() == old(self).ts(),
            match (r, p_context(old(self).ts(), old(self).pos as int, grammar(old(self).ts(), lo))) {
                (Ok(v), Ok((m, k))) => v.model() == m && final(self).pos == k && old(self).pos < k,
                (Err(e), Err(f)) => e.model() == f,
                _ => false,
            },
        decreases old(self).ts().len() - old(self).pos, 9nat,
    {
        proof {
            reveal(p_context);
        }
        let start = self.start();
        let name = match self.ident(Ghost(lo)) {
            Ok(x) => x,
            Err(e) => {
                return Err(e);
            },
        };
        let none: Vec<CtxParam> = Vec::new();
        assert(ctx_param_models(none@) =~= Seq::empty());
        let params = match self.ctx_params(none, Ghost(lo)) {
            Ok(x) => x,
            Err(e) => {
                return Err(e);
            },
        };
        if self.cur() != Tok::Colon {
            return Err(self.expected("`:'"));
        }
        self.bump();
        if self.cur() != Tok::Context {
            return Err(self.expected("CONTEXT"));
        }
        self.bump();
        if self.cur() != Tok::Eq {
            return Err(self.expected("`='"));
        }
        self.bump();
        if self.cur() != Tok::Begin {
            return Err(self.expected("BEGIN"));
        }
        self.bump();
        let nodecls: Vec<Decl> = Vec::new();
        assert(decl_models(nodecls@) =~= Seq::empty());
        let decls = match self.declarations(nodecls, Ghost(lo)) {
            Ok(x) => x,
            Err(e) => {
                return Err(e);
            },
        };
        if decls.len() == 0 {
            return Err(self.error("Invalid empty context."));
        }
        if self.cur() != Tok::End {
            return Err(self.expected("END"));
        }
        self.bump();
        if !(self.cur() == Tok::Eof) {
            return Err(self.unexpected("Unexpected token \"", "\" after end of context."));
        }
        return Ok(SalContext { name, params, decls, span: self.span_from(start) });
    }

    /// The formal parameters of a context, where it has any.
    fn ctx_params(
        &mut self,
        none: Vec<CtxParam>,
        Ghost(lo): Ghost<int>
    ) -> (r: Result<Vec<CtxParam>, ParseError>)
        requires
            old(self).wf(),
            lo < old(self).pos,
        ensures
            final(self).wf(),
            final(self).ts() == old(self).ts(),
            match (
                r,
                p_ctx_params(
                    old(self).ts(),
                    old(self).pos as int,
                    ctx_param_models(none@),
                    grammar(old(self).ts(), lo)
                )
            ) {
                (Ok(v), Ok((m, k))) => ctx_param_models(v@) == m && final(self).pos == k && old(self).pos <= k,
                (Err(e), Err(f)) => e.model() == f,
                _ => false,
            },
        decreases old(self).ts().len() - old(self).pos, 4nat,
    {
        proof {
            reveal(p_ctx_params);
        }
        if self.cur() == Tok::LBrace && self.look(1) == Tok::Semi {
            self.bump();
            self.bump();
            return self.ctx_param_list(none, Ghost(lo));
        }
        if self.cur() == Tok::LBrace {
            self.bump();
            return self.ctx_param_list(none, Ghost(lo));
        }
        return Ok(none);
    }

    /// Formal parameters up to the closing brace.
    fn ctx_param_list(
        &mut self,
        acc0: Vec<CtxParam>,
        Ghost(lo): Ghost<int>
    ) -> (r: Result<Vec<CtxParam>, ParseError>)
        requires
            old(self).wf(),
            lo < old(self).pos,
        ensures
            final(self).wf(),
            final(self).ts() == old(self).ts(),
            match (
                r,
                p_ctx_param_list(
                    old(self).ts(),
                    old(self).pos as int,
                    ctx_param_models(acc0@),
                    grammar(old(self).ts(), lo)
                )
            ) {
                (Ok(v), Ok((m, k))) => ctx_param_models(v@) == m && final(self).pos == k && old(self).pos < k,
                (Err(e), Err(f)) => e.model() == f,
                _ => false,
            },
        decreases old(self).ts().len() - old(self).pos, 3nat,
    {
        let mut acc = acc0;
        loop
            invariant
                self.wf(),
                self.ts() == old(self).ts(),
                lo < old(self).pos <= self.pos,
                p_ctx_param_list(
                    old(self).ts(),
                    old(self).pos as int,
                    ctx_param_models(acc0@),
                    grammar(old(self).ts(), lo)
                ) == p_ctx_param_list(
                    old(self).ts(),
                    self.pos as int, ctx_param_models(acc@),
                    grammar(old(self).ts(), lo),
                ),
            decreases self.ts().len() - self.pos,
        {
            proof {
                reveal_with_fuel(p_ctx_param_list, 1);
            }
            if self.cur() == Tok::RBrace {
                self.bump();
                return Ok(acc);
            }
            let x = match self.ctx_param(Ghost(lo)) {
                Ok(x) => x,
                Err(e) => {
                    return Err(e);
                },
            };
            let item = x;
            let ghost pushed = item.model();
            let ghost before = acc@;
            acc.push(item);
            assert(ctx_param_models(acc@) =~= ctx_param_models(before).push(pushed));
            if (self.cur() == Tok::Comma || self.cur() == Tok::Semi) {
                self.bump();
                continue;
            }
            if self.cur() != Tok::RBrace {
                return Err(self.expected("`}'"));
            }
            self.bump();
            return Ok(acc);
        }
    }

    /// A group of formal parameters.
    fn ctx_param(&mut self, Ghost(lo): Ghost<int>) -> (r: Result<CtxParam, ParseError>)
        requires
            old(self).wf(),
            lo < old(self).pos,
        ensures
            final(self).wf(),
            final(self).ts() == old(self).ts(),
            match (r, p_ctx_param(old(self).ts(), old(self).pos as int, grammar(old(self).ts(), lo))) {
                (Ok(v), Ok((m, k))) => v.model() == m && final(self).pos == k && old(self).pos < k,
                (Err(e), Err(f)) => e.model() == f,
                _ => false,
            },
        decreases old(self).ts().len() - old(self).pos, 2nat,
    {
        proof {
            reveal(p_ctx_param);
        }
        let none: Vec<Ident> = Vec::new();
        assert(ident_models(none@) =~= Seq::empty());
        let ids = match self.ident_list(none, Ghost(lo)) {
            Ok(x) => x,
            Err(e) => {
                return Err(e);
            },
        };
        if self.cur() != Tok::Colon {
            return Err(self.expected("`:'"));
        }
        self.bump();
        if self.cur() == Tok::Type {
            self.bump();
            return Ok(CtxParam::Types(ids));
        }
        let ty = match self.type_inner(Ghost(lo)) {
            Ok(x) => x,
            Err(e) => {
                return Err(e);
            },
        };
        return Ok(CtxParam::Vars(ids, ty));
    }

    /// The declarations of a context, up to its end.
    fn declarations(&mut self, acc0: Vec<Decl>, Ghost(lo): Ghost<int>) -> (r: Result<Vec<Decl>, ParseError>)
        requires
            old(self).wf(),
            lo < old(self).pos,
        ensures
            final(self).wf(),
            final(self).ts() == old(self).ts(),
            match (
                r,
                p_declarations(
                    old(self).ts(),
                    old(self).pos as int,
                    decl_models(acc0@),
                    grammar(old(self).ts(), lo)
                )
            ) {
                (Ok(v), Ok((m, k))) => decl_models(v@) == m && final(self).pos == k && old(self).pos <= k,
                (Err(e), Err(f)) => e.model() == f,
                _ => false,
            },
        decreases old(self).ts().len() - old(self).pos, 8nat,
    {
        let mut acc = acc0;
        loop
            invariant
                self.wf(),
                self.ts() == old(self).ts(),
                lo < old(self).pos <= self.pos,
                p_declarations(
                    old(self).ts(),
                    old(self).pos as int,
                    decl_models(acc0@),
                    grammar(old(self).ts(), lo)
                ) == p_declarations(
                    old(self).ts(),
                    self.pos as int, decl_models(acc@),
                    grammar(old(self).ts(), lo),
                ),
            decreases self.ts().len() - self.pos,
        {
            proof {
                reveal_with_fuel(p_declarations, 1);
            }
            if self.cur() == Tok::End {
                return Ok(acc);
            }
            let x = match self.declaration(Ghost(lo)) {
                Ok(x) => x,
                Err(e) => {
                    return Err(e);
                },
            };
            let item = x;
            let ghost pushed = item.model();
            let ghost before = acc@;
            acc.push(item);
            assert(decl_models(acc@) =~= decl_models(before).push(pushed));
            if self.cur() != Tok::Semi {
                return Err(self.expected("`;'"));
            }
            self.bump();
            continue;
        }
    }

    /// A declaration.
    fn declaration(&mut self, Ghost(lo): Ghost<int>) -> (r: Result<Decl, ParseError>)
        requires
            old(self).wf(),
            lo < old(self).pos,
        ensures
            final(self).wf(),
            final(self).ts() == old(self).ts(),
            match (r, p_declaration(old(self).ts(), old(self).pos as int, grammar(old(self).ts(), lo))) {
                (Ok(v), Ok((m, k))) => v.model() == m && final(self).pos == k && old(self).pos < k,
                (Err(e), Err(f)) => e.model() == f,
                _ => false,
            },
        decreases old(self).ts().len() - old(self).pos, 7nat,
    {
        proof {
            reveal(p_declaration);
        }
        if self.cur() == Tok::Importing {
            self.bump();
            let ctx = match self.context_name(Ghost(lo)) {
                Ok(x) => x,
                Err(e) => {
                    return Err(e);
                },
            };
            let none: Vec<(Ident, Ident)> = Vec::new();
            assert(ident_ident_pairs(none@) =~= Seq::empty());
            if self.cur() == Tok::With {
                self.bump();
                let renames = match self.import_renames(none, Ghost(lo)) {
                    Ok(x) => x,
                    Err(e) => {
                        return Err(e);
                    },
                };
                return Ok(Decl::Import { ctx, renames });
            }
            return Ok(Decl::Import { ctx, renames: none });
        }
        let name = match self.ident(Ghost(lo)) {
            Ok(x) => x,
            Err(e) => {
                return Err(e);
            },
        };
        if self.cur() == Tok::LParen {
            self.bump();
            let none: Vec<VarDecl> = Vec::new();
            assert(var_decl_models(none@) =~= Seq::empty());
            let args = match self.var_decl_plus(none, Ghost(lo)) {
                Ok(x) => x,
                Err(e) => {
                    return Err(e);
                },
            };
            if self.cur() != Tok::RParen {
                return Err(self.expected("`)'"));
            }
            self.bump();
            if self.cur() != Tok::Colon {
                return Err(self.expected("`:'"));
            }
            self.bump();
            let ty = match self.type_inner(Ghost(lo)) {
                Ok(x) => x,
                Err(e) => {
                    return Err(e);
                },
            };
            let value = match self.definiens(Ghost(lo)) {
                Ok(x) => x,
                Err(e) => {
                    return Err(e);
                },
            };
            return Ok(Decl::Constant { name, args, ty, value });
        }
        if self.cur() == Tok::LBrack {
            self.bump();
            let none: Vec<VarDecl> = Vec::new();
            assert(var_decl_models(none@) =~= Seq::empty());
            let params = match self.var_decl_plus(none, Ghost(lo)) {
                Ok(x) => x,
                Err(e) => {
                    return Err(e);
                },
            };
            if self.cur() != Tok::RBrack {
                return Err(self.expected("`]'"));
            }
            self.bump();
            if self.cur() != Tok::Colon {
                return Err(self.expected("`:'"));
            }
            self.bump();
            if self.cur() != Tok::Module {
                return Err(self.expected("MODULE"));
            }
            self.bump();
            if self.cur() != Tok::Eq {
                return Err(self.expected("`='"));
            }
            self.bump();
            let body = match self.module_inner(Ghost(lo)) {
                Ok(x) => x,
                Err(e) => {
                    return Err(e);
                },
            };
            return Ok(Decl::Module { name, params, body });
        }
        if !(self.cur() == Tok::Colon) {
            return Err(self.unexpected("Unexpected token \"", "\" in declaration."));
        }
        self.bump();
        if self.cur() == Tok::Type {
            self.bump();
            if self.cur() == Tok::Eq {
                self.bump();
                let def = match self.type_def(Ghost(lo)) {
                    Ok(x) => x,
                    Err(e) => {
                        return Err(e);
                    },
                };
                return Ok(Decl::Type { name, def: Some(def) });
            }
            return Ok(Decl::Type { name, def: None });
        }
        if self.cur() == Tok::Context {
            self.bump();
            if self.cur() != Tok::Eq {
                return Err(self.expected("`='"));
            }
            self.bump();
            let ctx = match self.context_name(Ghost(lo)) {
                Ok(x) => x,
                Err(e) => {
                    return Err(e);
                },
            };
            return Ok(Decl::Context { name, ctx });
        }
        if self.cur() == Tok::Module {
            self.bump();
            if self.cur() != Tok::Eq {
                return Err(self.expected("`='"));
            }
            self.bump();
            let body = match self.module_inner(Ghost(lo)) {
                Ok(x) => x,
                Err(e) => {
                    return Err(e);
                },
            };
            let none: Vec<VarDecl> = Vec::new();
            assert(var_decl_models(none@) =~= Seq::empty());
            return Ok(Decl::Module { name, params: none, body });
        }
        if (self.cur() == Tok::Theorem || self.cur() == Tok::Lemma || self.cur() == Tok::Claim
            || self.cur() == Tok::Obligation) {
            let form = if self.cur() == Tok::Theorem { AssertionForm::Theorem } else if self.cur()
                == Tok::Lemma { AssertionForm::Lemma } else if self.cur()
                == Tok::Claim { AssertionForm::Claim } else { AssertionForm::Obligation };
            self.bump();
            let m = match self.module_inner(Ghost(lo)) {
                Ok(x) => x,
                Err(e) => {
                    return Err(e);
                },
            };
            if self.cur() == Tok::Turnstile {
                self.bump();
                let formula = match self.expr_bp(0, Ghost(lo)) {
                    Ok(x) => x,
                    Err(e) => {
                        return Err(e);
                    },
                };
                let body = AssertionExpr::Models { module: m, formula };
                let ghost body_value = body.model();
                return Ok(Decl::Assertion { name, form, body });
            }
            if self.cur() != Tok::Implements {
                return Err(self.expected("|- or IMPLEMENTS"));
            }
            self.bump();
            let abstract_ = match self.module_inner(Ghost(lo)) {
                Ok(x) => x,
                Err(e) => {
                    return Err(e);
                },
            };
            let body = AssertionExpr::Implements { concrete: m, abstract_ };
            let ghost body_value = body.model();
            return Ok(Decl::Assertion { name, form, body });
        }
        let ty = match self.type_inner(Ghost(lo)) {
            Ok(x) => x,
            Err(e) => {
                return Err(e);
            },
        };
        let value = match self.definiens(Ghost(lo)) {
            Ok(x) => x,
            Err(e) => {
                return Err(e);
            },
        };
        let none: Vec<VarDecl> = Vec::new();
        assert(var_decl_models(none@) =~= Seq::empty());
        return Ok(Decl::Constant { name, args: none, ty, value });
    }

    /// `= e`, where it is there.
    fn definiens(&mut self, Ghost(lo): Ghost<int>) -> (r: Result<Option<Expr>, ParseError>)
        requires
            old(self).wf(),
            lo < old(self).pos,
        ensures
            final(self).wf(),
            final(self).ts() == old(self).ts(),
            match (r, p_definiens(old(self).ts(), old(self).pos as int, grammar(old(self).ts(), lo))) {
                (Ok(v), Ok((m, k))) => opt_expr(v) == m && final(self).pos == k && old(self).pos <= k,
                (Err(e), Err(f)) => e.model() == f,
                _ => false,
            },
        decreases old(self).ts().len() - old(self).pos, 1nat,
    {
        proof {
            reveal(p_definiens);
        }
        if self.cur() == Tok::Eq {
            self.bump();
            let e = match self.expr_bp(0, Ghost(lo)) {
                Ok(x) => x,
                Err(e) => {
                    return Err(e);
                },
            };
            return Ok(Some(e));
        }
        return Ok(None);
    }

    /// The renamings of an import.
    fn import_renames(
        &mut self,
        acc0: Vec<(Ident, Ident)>,
        Ghost(lo): Ghost<int>
    ) -> (r: Result<Vec<(Ident, Ident)>, ParseError>)
        requires
            old(self).wf(),
            lo < old(self).pos,
        ensures
            final(self).wf(),
            final(self).ts() == old(self).ts(),
            match (
                r,
                p_import_renames(
                    old(self).ts(),
                    old(self).pos as int,
                    ident_ident_pairs(acc0@),
                    grammar(old(self).ts(), lo)
                )
            ) {
                (Ok(v), Ok((m, k))) => ident_ident_pairs(v@) == m && final(self).pos == k && old(self).pos < k,
                (Err(e), Err(f)) => e.model() == f,
                _ => false,
            },
        decreases old(self).ts().len() - old(self).pos, 1nat,
    {
        let mut acc = acc0;
        loop
            invariant
                self.wf(),
                self.ts() == old(self).ts(),
                lo < old(self).pos <= self.pos,
                p_import_renames(
                    old(self).ts(),
                    old(self).pos as int,
                    ident_ident_pairs(acc0@),
                    grammar(old(self).ts(), lo)
                ) == p_import_renames(
                    old(self).ts(),
                    self.pos as int, ident_ident_pairs(acc@),
                    grammar(old(self).ts(), lo),
                ),
            decreases self.ts().len() - self.pos,
        {
            proof {
                reveal_with_fuel(p_import_renames, 1);
            }
            let a = match self.ident(Ghost(lo)) {
                Ok(x) => x,
                Err(e) => {
                    return Err(e);
                },
            };
            if self.cur() != Tok::To {
                return Err(self.expected("TO"));
            }
            self.bump();
            let b = match self.ident(Ghost(lo)) {
                Ok(x) => x,
                Err(e) => {
                    return Err(e);
                },
            };
            let ghost pushed = (a.model(), b.model());
            let ghost before = acc@;
            acc.push((a, b));
            assert(ident_ident_pairs(acc@) =~= ident_ident_pairs(before).push(pushed));
            if self.cur() == Tok::Comma {
                self.bump();
                continue;
            }
            return Ok(acc);
        }
    }

    /// A context with actual parameters.
    fn context_name(&mut self, Ghost(lo): Ghost<int>) -> (r: Result<ContextName, ParseError>)
        requires
            old(self).wf(),
            lo < old(self).pos,
        ensures
            final(self).wf(),
            final(self).ts() == old(self).ts(),
            match (r, p_context_name(old(self).ts(), old(self).pos as int, grammar(old(self).ts(), lo))) {
                (Ok(v), Ok((m, k))) => v.model() == m && final(self).pos == k && old(self).pos < k,
                (Err(e), Err(f)) => e.model() == f,
                _ => false,
            },
        decreases old(self).ts().len() - old(self).pos, 1nat,
    {
        proof {
            reveal(p_context_name);
        }
        let start = self.start();
        let name = match self.ident(Ghost(lo)) {
            Ok(x) => x,
            Err(e) => {
                return Err(e);
            },
        };
        let none: Vec<Actual> = Vec::new();
        assert(actual_models(none@) =~= Seq::empty());
        if self.cur() == Tok::LBrace {
            self.bump();
            let actuals = match self.actuals(none, Ghost(lo)) {
                Ok(x) => x,
                Err(e) => {
                    return Err(e);
                },
            };
            if self.cur() != Tok::RBrace {
                return Err(self.expected("`}'"));
            }
            self.bump();
            return Ok(ContextName { name, actuals, span: self.span_from(start) });
        }
        return Ok(ContextName { name, actuals: none, span: self.span_from(start) });
    }

    /// The definition of a type.
    fn type_def(&mut self, Ghost(lo): Ghost<int>) -> (r: Result<TypeDef, ParseError>)
        requires
            old(self).wf(),
            lo < old(self).pos,
        ensures
            final(self).wf(),
            final(self).ts() == old(self).ts(),
            match (r, p_type_def(old(self).ts(), old(self).pos as int, grammar(old(self).ts(), lo))) {
                (Ok(v), Ok((m, k))) => v.model() == m && final(self).pos == k && old(self).pos < k,
                (Err(e), Err(f)) => e.model() == f,
                _ => false,
            },
        decreases old(self).ts().len() - old(self).pos, 4nat,
    {
        proof {
            reveal(p_type_def);
        }
        if self.cur() == Tok::LBrace && self.look(1) == Tok::Identifier && self.look(2) == Tok::Colon {
            let t = match self.type_inner(Ghost(lo)) {
                Ok(x) => x,
                Err(e) => {
                    return Err(e);
                },
            };
            return Ok(TypeDef::Type(t));
        }
        if self.cur() == Tok::LBrace {
            self.bump();
            let none: Vec<Ident> = Vec::new();
            assert(ident_models(none@) =~= Seq::empty());
            let ids = match self.ident_list(none, Ghost(lo)) {
                Ok(x) => x,
                Err(e) => {
                    return Err(e);
                },
            };
            if self.cur() != Tok::RBrace {
                return Err(self.expected("`}'"));
            }
            self.bump();
            return Ok(TypeDef::Scalar(ids));
        }
        if self.cur() == Tok::Datatype {
            self.bump();
            let none: Vec<Constructor> = Vec::new();
            assert(constructor_models(none@) =~= Seq::empty());
            let ctors = match self.constructor_list(none, Ghost(lo)) {
                Ok(x) => x,
                Err(e) => {
                    return Err(e);
                },
            };
            if self.cur() != Tok::End {
                return Err(self.expected("END"));
            }
            self.bump();
            return Ok(TypeDef::Datatype(ctors));
        }
        if self.cur() == Tok::Scalarset {
            self.bump();
            if self.cur() != Tok::LParen {
                return Err(self.expected("`('"));
            }
            self.bump();
            let e = match self.expr_bp(0, Ghost(lo)) {
                Ok(x) => x,
                Err(e) => {
                    return Err(e);
                },
            };
            if self.cur() != Tok::RParen {
                return Err(self.expected("`)'"));
            }
            self.bump();
            return Ok(TypeDef::Scalarset(e));
        }
        if self.cur() == Tok::Ringset {
            self.bump();
            if self.cur() != Tok::LParen {
                return Err(self.expected("`('"));
            }
            self.bump();
            let e = match self.expr_bp(0, Ghost(lo)) {
                Ok(x) => x,
                Err(e) => {
                    return Err(e);
                },
            };
            if self.cur() != Tok::RParen {
                return Err(self.expected("`)'"));
            }
            self.bump();
            return Ok(TypeDef::Ringset(e));
        }
        let t = match self.type_inner(Ghost(lo)) {
            Ok(x) => x,
            Err(e) => {
                return Err(e);
            },
        };
        return Ok(TypeDef::Type(t));
    }

    /// A constructor of a datatype.
    fn constructor(&mut self, Ghost(lo): Ghost<int>) -> (r: Result<Constructor, ParseError>)
        requires
            old(self).wf(),
            lo < old(self).pos,
        ensures
            final(self).wf(),
            final(self).ts() == old(self).ts(),
            match (r, p_constructor(old(self).ts(), old(self).pos as int, grammar(old(self).ts(), lo))) {
                (Ok(v), Ok((m, k))) => v.model() == m && final(self).pos == k && old(self).pos < k,
                (Err(e), Err(f)) => e.model() == f,
                _ => false,
            },
        decreases old(self).ts().len() - old(self).pos, 1nat,
    {
        proof {
            reveal(p_constructor);
        }
        let name = match self.ident(Ghost(lo)) {
            Ok(x) => x,
            Err(e) => {
                return Err(e);
            },
        };
        let none: Vec<VarDecl> = Vec::new();
        assert(var_decl_models(none@) =~= Seq::empty());
        if self.cur() == Tok::LParen {
            self.bump();
            let accessors = match self.var_decl_plus(none, Ghost(lo)) {
                Ok(x) => x,
                Err(e) => {
                    return Err(e);
                },
            };
            if self.cur() != Tok::RParen {
                return Err(self.expected("`)'"));
            }
            self.bump();
            return Ok(Constructor { name, accessors });
        }
        return Ok(Constructor { name, accessors: none });
    }

    /// Constructors with commas between them.
    fn constructor_list(
        &mut self,
        acc0: Vec<Constructor>,
        Ghost(lo): Ghost<int>
    ) -> (r: Result<Vec<Constructor>, ParseError>)
        requires
            old(self).wf(),
            lo < old(self).pos,
        ensures
            final(self).wf(),
            final(self).ts() == old(self).ts(),
            match (
                r,
                p_constructor_list(
                    old(self).ts(),
                    old(self).pos as int,
                    constructor_models(acc0@),
                    grammar(old(self).ts(), lo)
                )
            ) {
                (Ok(v), Ok((m, k))) => constructor_models(v@) == m && final(self).pos == k && old(self).pos < k,
                (Err(e), Err(f)) => e.model() == f,
                _ => false,
            },
        decreases old(self).ts().len() - old(self).pos, 2nat,
    {
        let mut acc = acc0;
        loop
            invariant
                self.wf(),
                self.ts() == old(self).ts(),
                lo < old(self).pos <= self.pos,
                p_constructor_list(
                    old(self).ts(),
                    old(self).pos as int,
                    constructor_models(acc0@),
                    grammar(old(self).ts(), lo)
                ) == p_constructor_list(
                    old(self).ts(),
                    self.pos as int, constructor_models(acc@),
                    grammar(old(self).ts(), lo),
                ),
            decreases self.ts().len() - self.pos,
        {
            proof {
                reveal_with_fuel(p_constructor_list, 1);
            }
            let x = match self.constructor(Ghost(lo)) {
                Ok(x) => x,
                Err(e) => {
                    return Err(e);
                },
            };
            let item = x;
            let ghost pushed = item.model();
            let ghost before = acc@;
            acc.push(item);
            assert(constructor_models(acc@) =~= constructor_models(before).push(pushed));
            if self.cur() == Tok::Comma {
                self.bump();
                continue;
            }
            return Ok(acc);
        }
    }
}

impl Parser {
    /// Parses a type.
    pub fn type_expr(&mut self) -> (r: Result<Type, ParseError>)
        requires
            old(self).wf(),
        ensures
            final(self).wf(),
            final(self).ts() == old(self).ts(),
            match (r, (grammar(old(self).ts(), old(self).place() - 1).ty)(old(self).place())) {
                (Ok(v), Ok((m, k))) => v.model() == m && final(self).place() == k,
                (Err(e), Err(f)) => e.model() == f,
                _ => false,
            },
    {
        let ghost lo = self.pos - 1;
        self.type_inner(Ghost(lo))
    }

    /// Parses an expression.
    pub fn expr(&mut self) -> (r: Result<Expr, ParseError>)
        requires
            old(self).wf(),
        ensures
            final(self).wf(),
            final(self).ts() == old(self).ts(),
            match (r, (grammar(old(self).ts(), old(self).place() - 1).expr)(old(self).place(), 0)) {
                (Ok(v), Ok((m, k))) => v.model() == m && final(self).place() == k,
                (Err(e), Err(f)) => e.model() == f,
                _ => false,
            },
    {
        let ghost lo = self.pos - 1;
        self.expr_bp(0, Ghost(lo))
    }

    /// Parses a module.
    pub fn module(&mut self) -> (r: Result<Module, ParseError>)
        requires
            old(self).wf(),
        ensures
            final(self).wf(),
            final(self).ts() == old(self).ts(),
            match (r, (grammar(old(self).ts(), old(self).place() - 1).module)(old(self).place())) {
                (Ok(v), Ok((m, k))) => v.model() == m && final(self).place() == k,
                (Err(e), Err(f)) => e.model() == f,
                _ => false,
            },
    {
        let ghost lo = self.pos - 1;
        self.module_inner(Ghost(lo))
    }

    /// Parses a context.
    pub fn context(&mut self) -> (r: Result<SalContext, ParseError>)
        requires
            old(self).wf(),
        ensures
            final(self).wf(),
            final(self).ts() == old(self).ts(),
            match (
                r,
                p_context(old(self).ts(), old(self).place(), grammar(old(self).ts(), old(self).place() - 1))
            ) {
                (Ok(v), Ok((m, k))) => v.model() == m && final(self).place() == k,
                (Err(e), Err(f)) => e.model() == f,
                _ => false,
            },
    {
        let ghost lo = self.pos - 1;
        self.context_inner(Ghost(lo))
    }
}

/// How a whole text parses.
pub open spec fn whole<T>(r: PS<T>, ts: Seq<TokenV>) -> Result<T, Fail> {
    match r {
        Ok((x, k)) => if tok_at(ts, k) == Tok::Eof {
            Ok(x)
        } else {
            Err(expected(ts, k, "end of input"@))
        },
        Err(e) => Err(e),
    }
}

/// The context of a text.
pub open spec fn context_of(s: Seq<char>) -> Result<SalContextV, Fail> {
    match tokens(s, 0) {
        Ok(ts) => match p_context(ts, 0, grammar(ts, -1)) {
            Ok((c, _)) => Ok(c),
            Err(e) => Err(e),
        },
        Err(e) => Err(e),
    }
}

/// The expression of a text.
pub open spec fn expr_of(s: Seq<char>) -> Result<ExprV, Fail> {
    match tokens(s, 0) {
        Ok(ts) => whole((grammar(ts, -1).expr)(0, 0), ts),
        Err(e) => Err(e),
    }
}

/// The module of a text.
pub open spec fn module_of(s: Seq<char>) -> Result<ModuleV, Fail> {
    match tokens(s, 0) {
        Ok(ts) => whole((grammar(ts, -1).module)(0), ts),
        Err(e) => Err(e),
    }
}

/// Parses a context.
pub fn parse_context(src: &str) -> (r: Result<SalContext, ParseError>)
    requires
        sized(src@),
    ensures
        match r {
            Ok(c) => context_of(src@) == Ok::<SalContextV, Fail>(c.model()),
            Err(e) => context_of(src@) == Err::<SalContextV, Fail>(e.model()),
        },
{
    match Parser::new(src) {
        Ok(p) => {
            let mut p = p;
            p.context()
        },
        Err(e) => Err(e),
    }
}

/// Parses an expression.
pub fn parse_expr(src: &str) -> (r: Result<Expr, ParseError>)
    requires
        sized(src@),
    ensures
        match r {
            Ok(e) => expr_of(src@) == Ok::<ExprV, Fail>(e.model()),
            Err(e) => expr_of(src@) == Err::<ExprV, Fail>(e.model()),
        },
{
    match Parser::new(src) {
        Ok(p) => {
            let mut p = p;
            match p.expr() {
                Ok(e) => {
                    if p.cur() != Tok::Eof {
                        return Err(p.expected("end of input"));
                    }
                    Ok(e)
                },
                Err(e) => Err(e),
            }
        },
        Err(e) => Err(e),
    }
}

/// Parses a module.
pub fn parse_module(src: &str) -> (r: Result<Module, ParseError>)
    requires
        sized(src@),
    ensures
        match r {
            Ok(m) => module_of(src@) == Ok::<ModuleV, Fail>(m.model()),
            Err(e) => module_of(src@) == Err::<ModuleV, Fail>(e.model()),
        },
{
    match Parser::new(src) {
        Ok(p) => {
            let mut p = p;
            match p.module() {
                Ok(m) => {
                    if p.cur() != Tok::Eof {
                        return Err(p.expected("end of input"));
                    }
                    Ok(m)
                },
                Err(e) => Err(e),
            }
        },
        Err(e) => Err(e),
    }
}

} // verus!
