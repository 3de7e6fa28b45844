//! From text to tokens.
//!
//! The longest token wins. Keywords are recognised in any case, word operators in lower or in
//! upper case. An identifier of operator characters starts with one of `$ & @ ^ ~`.

use crate::num::Int;
use crate::num::{dec_nat, digit_value, numeral_value, parse_nat};
use crate::span::{Pos, Span};
use crate::text::{own, put, same};
use crate::token::{keyword, keyword_of, token_models, word_operator, word_operator_of, Tok, Token, TokenV};
use vstd::prelude::*;
use vstd::std_specs::iter::IteratorSpec;
use vstd::string::*;

verus! {

/// Why a text has no tokens.
#[derive(Debug)]
pub struct LexError {
    pub pos: Pos,
    pub msg: String,
}

/// A message about a place.
pub ghost struct Fail {
    pub pos: Pos,
    pub msg: Seq<char>,
}

impl LexError {
    /// Its value.
    pub open spec fn model(&self) -> Fail {
        Fail { pos: self.pos, msg: self.msg@ }
    }
}

/// The number of bytes of a character.
pub open spec fn width(c: char) -> nat {
    if (c as u32) < 0x80 {
        1
    } else if (c as u32) < 0x800 {
        2
    } else if (c as u32) < 0x10000 {
        3
    } else {
        4
    }
}

/// The number of bytes of the first `i` characters.
pub open spec fn size_to(s: Seq<char>, i: int) -> nat
    decreases i,
{
    if i <= 0 {
        0
    } else {
        size_to(s, i - 1) + width(s[i - 1])
    }
}

/// The line of a character, from 1.
pub open spec fn line_at(s: Seq<char>, i: int) -> nat
    decreases i,
{
    if i <= 0 {
        1
    } else if s[i - 1] == '\n' {
        line_at(s, i - 1) + 1
    } else {
        line_at(s, i - 1)
    }
}

/// The byte of a character in its line, from 0.
pub open spec fn col_at(s: Seq<char>, i: int) -> nat
    decreases i,
{
    if i <= 0 {
        0
    } else if s[i - 1] == '\n' {
        0
    } else {
        col_at(s, i - 1) + width(s[i - 1])
    }
}

/// The place of a character.
pub open spec fn place(s: Seq<char>, i: int) -> Pos {
    Pos { line: line_at(s, i) as u32, col: col_at(s, i) as u32 }
}

/// The text is small enough for its places.
pub open spec fn sized(s: Seq<char>) -> bool {
    size_to(s, s.len() as int) < u32::MAX
}

proof fn place_bound(s: Seq<char>, i: int)
    requires
        0 <= i <= s.len(),
    ensures
        i <= size_to(s, i) <= size_to(s, s.len() as int),
        line_at(s, i) <= 1 + size_to(s, i),
        col_at(s, i) <= size_to(s, i),
    decreases s.len() - i, i,
{
    place_low(s, i);
    if i < s.len() {
        place_bound(s, i + 1);
    }
}

proof fn place_low(s: Seq<char>, i: int)
    requires
        0 <= i <= s.len(),
    ensures
        i <= size_to(s, i),
        line_at(s, i) <= 1 + size_to(s, i),
        col_at(s, i) <= size_to(s, i),
    decreases i,
{
    if i > 0 {
        place_low(s, i - 1);
    }
}

/// A letter of the ASCII alphabet.
pub open spec fn alphabetic(c: char) -> bool {
    'a' <= c <= 'z' || 'A' <= c <= 'Z'
}

/// A decimal digit.
pub open spec fn digit(c: char) -> bool {
    '0' <= c <= '9'
}

/// A hexadecimal digit.
pub open spec fn hex_digit(c: char) -> bool {
    digit(c) || 'a' <= c <= 'f' || 'A' <= c <= 'F'
}

/// A binary digit.
pub open spec fn bin_digit(c: char) -> bool {
    c == '0' || c == '1'
}

/// A character that starts an identifier.
pub open spec fn ident_start(c: char) -> bool {
    alphabetic(c) || c == '_'
}

/// A character inside an identifier.
pub open spec fn ident_cont(c: char) -> bool {
    alphabetic(c) || digit(c) || c == '?' || c == '_'
}

/// A character that starts an identifier of operator characters.
pub open spec fn opchar1(c: char) -> bool {
    c == '$' || c == '&' || c == '@' || c == '^' || c == '~'
}

/// A character that separates tokens.
pub open spec fn blank(c: char) -> bool {
    c == ' ' || c == '\t' || c == '\n' || c == '\r' || c == '\x0c'
}

/// A character inside an identifier of operator characters.
pub open spec fn opchar(c: char) -> bool {
    &&& (c as u32) < 0x80
    &&& !alphabetic(c)
    &&& !digit(c)
    &&& !(c == '(' || c == ')' || c == '[' || c == ']' || c == '{' || c == '}' || c == '%' || c == ','
        || c == '.' || c == ':' || c == ';' || c == '#' || c == '\\' || c == '!' || c == '?' || c == '_'
        || c == '|' || c == ' ' || c == '\t' || c == '\n' || c == '\r')
}

/// The kinds of characters that a token goes on with.
#[derive(Clone, Copy, Debug, PartialEq, Eq, Structural)]
pub enum Class {
    Ident,
    Op,
    Digit,
    Hex,
    Bin,
    Comment,
}

/// The character is of the kind.
pub open spec fn belongs(k: Class, c: char) -> bool {
    match k {
        Class::Ident => ident_cont(c),
        Class::Op => opchar(c),
        Class::Digit => digit(c),
        Class::Hex => hex_digit(c),
        Class::Bin => bin_digit(c),
        Class::Comment => c != '\n',
    }
}

/// The first place at or after `i` whose character is not of the kind.
pub open spec fn run_end(s: Seq<char>, i: int, k: Class) -> int
    decreases s.len() - i,
{
    if 0 <= i < s.len() && belongs(k, s[i]) {
        run_end(s, i + 1, k)
    } else {
        i
    }
}

/// The first place at or after `i` where a token starts or the text ends.
pub open spec fn skipped(s: Seq<char>, i: int) -> int
    decreases s.len() - i,
{
    if 0 <= i < s.len() && blank(s[i]) {
        skipped(s, i + 1)
    } else if 0 <= i < s.len() && s[i] == '%' {
        let j = run_end(s, i, Class::Comment);
        if i < j <= s.len() {
            skipped(s, j)
        } else {
            i
        }
    } else {
        i
    }
}

/// The character at a place, or a character of no token after the end.
pub open spec fn char_at(s: Seq<char>, i: int) -> char {
    if 0 <= i < s.len() {
        s[i]
    } else {
        '\0'
    }
}

/// The symbol that starts with `c`, then `d` and `e`, and its length.
pub open spec fn symbol(c: char, d: char, e: char) -> Option<(Tok, nat)> {
    if c == '(' {
        if d == '#' {
            Some((Tok::RecLitS, 2))
        } else {
            Some((Tok::LParen, 1))
        }
    } else if c == ')' {
        Some((Tok::RParen, 1))
    } else if c == '[' {
        if d == '#' {
            Some((Tok::RecTypeS, 2))
        } else if d == ']' {
            Some((Tok::Async, 2))
        } else {
            Some((Tok::LBrack, 1))
        }
    } else if c == ']' {
        Some((Tok::RBrack, 1))
    } else if c == '{' {
        Some((Tok::LBrace, 1))
    } else if c == '}' {
        Some((Tok::RBrace, 1))
    } else if c == '.' {
        if d == '.' {
            Some((Tok::DotDot, 2))
        } else {
            Some((Tok::Dot, 1))
        }
    } else if c == ',' {
        Some((Tok::Comma, 1))
    } else if c == ':' {
        if d == '=' {
            Some((Tok::Assign, 2))
        } else {
            Some((Tok::Colon, 1))
        }
    } else if c == ';' {
        Some((Tok::Semi, 1))
    } else if c == '!' {
        Some((Tok::Bang, 1))
    } else if c == '|' {
        if d == '|' {
            Some((Tok::Sync, 2))
        } else if d == '-' {
            Some((Tok::Turnstile, 2))
        } else {
            Some((Tok::VBar, 1))
        }
    } else if c == '=' {
        if d == '>' {
            Some((Tok::Implies, 2))
        } else {
            Some((Tok::Eq, 1))
        }
    } else if c == '/' {
        if d == '=' {
            Some((Tok::Neq, 2))
        } else {
            Some((Tok::Div, 1))
        }
    } else if c == '>' {
        if d == '=' {
            Some((Tok::Ge, 2))
        } else {
            Some((Tok::Gt, 1))
        }
    } else if c == '+' {
        Some((Tok::Plus, 1))
    } else if c == '*' {
        Some((Tok::Mult, 1))
    } else if c == '\'' {
        Some((Tok::Quote, 1))
    } else if c == '<' {
        if d == '=' && e == '>' {
            Some((Tok::Iff, 3))
        } else if d == '=' {
            Some((Tok::Le, 2))
        } else {
            Some((Tok::Lt, 1))
        }
    } else if c == '-' {
        if d == '-' && e == '>' {
            Some((Tok::LongArrow, 3))
        } else if d == '>' {
            Some((Tok::Arrow, 2))
        } else {
            Some((Tok::Minus, 1))
        }
    } else if c == '#' && d == ']' {
        Some((Tok::RecTypeE, 2))
    } else if c == '#' && d == ')' {
        Some((Tok::RecLitE, 2))
    } else {
        None
    }
}

/// The place of the quote that ends a string.
pub open spec fn string_end(s: Seq<char>, i: int) -> Option<int>
    decreases s.len() - i,
{
    if i < 0 || i >= s.len() {
        None
    } else if s[i] == '"' {
        Some(i)
    } else if s[i] == '\\' {
        if i + 1 < s.len() {
            string_end(s, i + 2)
        } else {
            None
        }
    } else {
        string_end(s, i + 1)
    }
}

/// The first byte of a character, as a character.
pub open spec fn lead(c: char) -> char {
    let n = c as u32;
    if n < 0x80 {
        c
    } else if n < 0x800 {
        (192 + n / 64) as u8 as char
    } else if n < 0x10000 {
        (224 + n / 4096) as u8 as char
    } else {
        (240 + n / 262144) as u8 as char
    }
}

/// The character in upper case.
pub open spec fn upper_char(c: char) -> char {
    if 'a' <= c <= 'z' {
        (c as u8 - 32) as u8 as char
    } else {
        c
    }
}

/// The text in upper case.
pub open spec fn upper(s: Seq<char>) -> Seq<char> {
    Seq::new(s.len(), |i: int| upper_char(s[i]))
}

/// The kind of an identifier-like word.
pub open spec fn word_kind(s: Seq<char>) -> Tok {
    if s == "_"@ {
        Tok::Unbounded
    } else {
        match word_operator_of(s) {
            Some(t) => t,
            None => match keyword_of(upper(s)) {
                Some(t) => t,
                None => Tok::Identifier,
            },
        }
    }
}

/// The numeral at a place: its text, in decimal, and its end.
pub open spec fn number(s: Seq<char>, i: int) -> (Seq<char>, int) {
    let d = char_at(s, i + 1);
    if s[i] == '0' && (d == 'x' || d == 'X') && hex_digit(char_at(s, i + 2)) {
        let k = run_end(s, i + 2, Class::Hex);
        (dec_nat(numeral_value(s.subrange(i + 2, k), 16)), k)
    } else if s[i] == '0' && (d == 'b' || d == 'B') && bin_digit(char_at(s, i + 2)) {
        let k = run_end(s, i + 2, Class::Bin);
        (dec_nat(numeral_value(s.subrange(i + 2, k), 2)), k)
    } else {
        let k = run_end(s, i, Class::Digit);
        (s.subrange(i, k), k)
    }
}

/// The token at a place, with its text and its end, or what is wrong there.
pub open spec fn scan(s: Seq<char>, i: int) -> Result<(Tok, Seq<char>, int), Seq<char>> {
    let c = s[i];
    if c == '"' {
        match string_end(s, i + 1) {
            Some(k) => Ok((Tok::Str, s.subrange(i + 1, k), k + 1)),
            None => Err("unterminated string"@),
        }
    } else {
        match symbol(c, char_at(s, i + 1), char_at(s, i + 2)) {
            Some((t, n)) => Ok((t, s.subrange(i, i + n), i + n)),
            None => if c == '#' {
                Err("invalid token `#'"@)
            } else if digit(c) {
                let (text, k) = number(s, i);
                Ok((Tok::Numeral, text, k))
            } else if ident_start(c) {
                let k = run_end(s, i, Class::Ident);
                Ok((word_kind(s.subrange(i, k)), s.subrange(i, k), k))
            } else if opchar1(c) {
                let k = run_end(s, i, Class::Op);
                Ok((Tok::Identifier, s.subrange(i, k), k))
            } else {
                Err("invalid character `"@ + seq![lead(c)] + "'"@)
            },
        }
    }
}

/// The tokens from a place on. The last one is the end of the text.
pub open spec fn tokens(s: Seq<char>, i: int) -> Result<Seq<TokenV>, Fail>
    decreases s.len() - i,
{
    let j = skipped(s, i);
    let start = place(s, j);
    if j >= s.len() {
        Ok(seq![TokenV { tok: Tok::Eof, text: ""@, span: Span { start, end: start } }])
    } else {
        match scan(s, j) {
            Err(msg) => Err(Fail { pos: start, msg }),
            Ok((tok, text, k)) => if k <= i || k > s.len() {
                arbitrary()
            } else {
                let t = TokenV { tok, text, span: Span { start, end: place(s, k) } };
                match tokens(s, k) {
                    Ok(rest) => Ok(seq![t] + rest),
                    Err(e) => Err(e),
                }
            },
        }
    }
}

/// Tokens in front of others.
spec fn prefixed(out: Seq<TokenV>, r: Result<Seq<TokenV>, Fail>) -> Result<Seq<TokenV>, Fail> {
    match r {
        Ok(rest) => Ok(out + rest),
        Err(e) => Err(e),
    }
}

proof fn run_range(s: Seq<char>, i: int, k: Class)
    requires
        0 <= i <= s.len(),
    ensures
        i <= run_end(s, i, k) <= s.len(),
        i < s.len() && belongs(k, s[i]) ==> i < run_end(s, i, k),
        forall|j: int| i <= j < run_end(s, i, k) ==> belongs(k, #[trigger] s[j]),
    decreases s.len() - i,
{
    if i < s.len() && belongs(k, s[i]) {
        run_range(s, i + 1, k);
    }
}

fn is_alphabetic(c: char) -> (r: bool)
    ensures
        r == alphabetic(c),
{
    ('a' <= c && c <= 'z') || ('A' <= c && c <= 'Z')
}

fn is_digit(c: char) -> (r: bool)
    ensures
        r == digit(c),
{
    '0' <= c && c <= '9'
}

fn is_hex(c: char) -> (r: bool)
    ensures
        r == hex_digit(c),
{
    is_digit(c) || ('a' <= c && c <= 'f') || ('A' <= c && c <= 'F')
}

fn is_ident_start(c: char) -> (r: bool)
    ensures
        r == ident_start(c),
{
    is_alphabetic(c) || c == '_'
}

fn is_ident_cont(c: char) -> (r: bool)
    ensures
        r == ident_cont(c),
{
    is_alphabetic(c) || is_digit(c) || c == '?' || c == '_'
}

fn is_opchar1(c: char) -> (r: bool)
    ensures
        r == opchar1(c),
{
    c == '$' || c == '&' || c == '@' || c == '^' || c == '~'
}

fn is_opchar(c: char) -> (r: bool)
    ensures
        r == opchar(c),
{
    (c as u32) < 0x80 && !is_alphabetic(c) && !is_digit(c) && !(c == '(' || c == ')' || c == '[' || c == ']'
        || c == '{' || c == '}' || c == '%' || c == ',' || c == '.' || c == ':' || c == ';' || c == '#'
        || c == '\\' || c == '!' || c == '?' || c == '_' || c == '|' || c == ' ' || c == '\t' || c == '\n'
        || c == '\r')
}

fn is_blank(c: char) -> (r: bool)
    ensures
        r == blank(c),
{
    c == ' ' || c == '\t' || c == '\n' || c == '\r' || c == '\x0c'
}

fn is_of(k: Class, c: char) -> (r: bool)
    ensures
        r == belongs(k, c),
{
    match k {
        Class::Ident => is_ident_cont(c),
        Class::Op => is_opchar(c),
        Class::Digit => is_digit(c),
        Class::Hex => is_hex(c),
        Class::Bin => c == '0' || c == '1',
        Class::Comment => c != '\n',
    }
}

fn lead_char(c: char) -> (r: char)
    ensures
        r == lead(c),
{
    let n: u32 = c as u32;
    if n < 0x80 {
        c
    } else if n < 0x800 {
        (192 + n / 64) as u8 as char
    } else if n < 0x10000 {
        (224 + n / 4096) as u8 as char
    } else {
        (240 + n / 262144) as u8 as char
    }
}

fn to_upper(s: &Vec<char>, a: usize, b: usize) -> (r: String)
    requires
        a <= b <= s@.len(),
    ensures
        r@ == upper(s@.subrange(a as int, b as int)),
{
    let mut out = String::new();
    let mut i: usize = a;
    while i < b
        invariant
            a <= i <= b <= s@.len(),
            out@ == upper(s@.subrange(a as int, i as int)),
        decreases b - i,
    {
        let c = s[i];
        let d = if 'a' <= c && c <= 'z' {
            (c as u8 - 32) as char
        } else {
            c
        };
        out.push(d);
        i += 1;
        assert(out@ =~= upper(s@.subrange(a as int, i as int)));
    }
    out
}

fn part(s: &Vec<char>, a: usize, b: usize) -> (r: String)
    requires
        a <= b <= s@.len(),
    ensures
        r@ == s@.subrange(a as int, b as int),
{
    let mut out = String::new();
    let mut i: usize = a;
    while i < b
        invariant
            a <= i <= b <= s@.len(),
            out@ == s@.subrange(a as int, i as int),
        decreases b - i,
    {
        out.push(s[i]);
        i += 1;
        assert(out@ =~= s@.subrange(a as int, i as int));
    }
    out
}

fn symbol_of(c: char, d: char, e: char) -> (r: Option<(Tok, usize)>)
    ensures
        match r {
            Some((t, n)) => symbol(c, d, e) == Some((t, n as nat)) && 1 <= n <= 3,
            None => symbol(c, d, e) is None,
        },
{
    if c == '(' {
        if d == '#' {
            Some((Tok::RecLitS, 2))
        } else {
            Some((Tok::LParen, 1))
        }
    } else if c == ')' {
        Some((Tok::RParen, 1))
    } else if c == '[' {
        if d == '#' {
            Some((Tok::RecTypeS, 2))
        } else if d == ']' {
            Some((Tok::Async, 2))
        } else {
            Some((Tok::LBrack, 1))
        }
    } else if c == ']' {
        Some((Tok::RBrack, 1))
    } else if c == '{' {
        Some((Tok::LBrace, 1))
    } else if c == '}' {
        Some((Tok::RBrace, 1))
    } else if c == '.' {
        if d == '.' {
            Some((Tok::DotDot, 2))
        } else {
            Some((Tok::Dot, 1))
        }
    } else if c == ',' {
        Some((Tok::Comma, 1))
    } else if c == ':' {
        if d == '=' {
            Some((Tok::Assign, 2))
        } else {
            Some((Tok::Colon, 1))
        }
    } else if c == ';' {
        Some((Tok::Semi, 1))
    } else if c == '!' {
        Some((Tok::Bang, 1))
    } else if c == '|' {
        if d == '|' {
            Some((Tok::Sync, 2))
        } else if d == '-' {
            Some((Tok::Turnstile, 2))
        } else {
            Some((Tok::VBar, 1))
        }
    } else if c == '=' {
        if d == '>' {
            Some((Tok::Implies, 2))
        } else {
            Some((Tok::Eq, 1))
        }
    } else if c == '/' {
        if d == '=' {
            Some((Tok::Neq, 2))
        } else {
            Some((Tok::Div, 1))
        }
    } else if c == '>' {
        if d == '=' {
            Some((Tok::Ge, 2))
        } else {
            Some((Tok::Gt, 1))
        }
    } else if c == '+' {
        Some((Tok::Plus, 1))
    } else if c == '*' {
        Some((Tok::Mult, 1))
    } else if c == '\'' {
        Some((Tok::Quote, 1))
    } else if c == '<' {
        if d == '=' && e == '>' {
            Some((Tok::Iff, 3))
        } else if d == '=' {
            Some((Tok::Le, 2))
        } else {
            Some((Tok::Lt, 1))
        }
    } else if c == '-' {
        if d == '-' && e == '>' {
            Some((Tok::LongArrow, 3))
        } else if d == '>' {
            Some((Tok::Arrow, 2))
        } else {
            Some((Tok::Minus, 1))
        }
    } else if c == '#' && d == ']' {
        Some((Tok::RecTypeE, 2))
    } else if c == '#' && d == ')' {
        Some((Tok::RecLitE, 2))
    } else {
        None
    }
}

/// A symbol of several characters lies inside the text.
proof fn symbol_inside(s: Seq<char>, i: int)
    requires
        0 <= i < s.len(),
    ensures
        symbol(s[i], char_at(s, i + 1), char_at(s, i + 2)) matches Some((t, n)) ==> i + n <= s.len(),
{
}

/// The characters of a text.
pub fn characters(src: &str) -> (chars: Vec<char>)
    ensures
        chars@ == src@,
{
    broadcast use {axiom_spec_iter, next_postcondition};
    let mut chars: Vec<char> = Vec::new();
    let mut it = src.chars();
    let ghost whole = src@;
    loop
        invariant
            it.obeys_prophetic_iter_laws(),
            it.decrease() is Some,
            chars@ + it.remaining() == whole,
        ensures
            chars@ == whole,
        decreases it.decrease()->0,
    {
        let ghost before = it.remaining();
        match it.next() {
            Some(c) => {
                chars.push(c);
                assert(chars@ + it.remaining() =~= whole);
            },
            None => {
                assert(chars@ =~= whole);
                break;
            },
        }
    }
    chars
}

/// A text has at least as many bytes as characters.
pub proof fn size_bound(s: Seq<char>)
    ensures
        s.len() <= size_to(s, s.len() as int),
{
    place_bound(s, s.len() as int);
}

/// A reader of a text.
pub struct Lexer {
    src: Vec<char>,
    off: usize,
    line: u32,
    col: u32,
}

impl Lexer {
    /// The text that is read.
    pub closed spec fn text(&self) -> Seq<char> {
        self.src@
    }

    /// Where the reader is.
    pub closed spec fn offset(&self) -> int {
        self.off as int
    }

    /// The place is that of the next character.
    pub closed spec fn wf(&self) -> bool {
        &&& sized(self.src@)
        &&& self.off <= self.src@.len()
        &&& self.line == line_at(self.src@, self.off as int)
        &&& self.col == col_at(self.src@, self.off as int)
    }

    /// A reader at the beginning of a text.
    pub fn new(src: &str) -> (r: Lexer)
        requires
            sized(src@),
        ensures
            r.wf(),
            r.text() == src@,
            r.offset() == 0,
    {
        Lexer { src: characters(src), off: 0, line: 1, col: 0 }
    }

    fn peek(&self, k: usize) -> (r: char)
        requires
            self.wf(),
            k <= 2,
        ensures
            r == char_at(self.src@, self.off + k),
    {
        if k < self.src.len() - self.off {
            self.src[self.off + k]
        } else {
            '\0'
        }
    }

    fn pos(&self) -> (r: Pos)
        requires
            self.wf(),
        ensures
            r == place(self.src@, self.off as int),
    {
        Pos::new(self.line, self.col)
    }

    fn bump(&mut self)
        requires
            old(self).wf(),
            old(self).off < old(self).src@.len(),
        ensures
            final(self).wf(),
            final(self).src == old(self).src,
            final(self).off == old(self).off + 1,
    {
        let c = self.src[self.off];
        proof {
            place_bound(self.src@, self.off + 1);
        }
        self.off += 1;
        if c == '\n' {
            self.line += 1;
            self.col = 0;
        } else {
            let n: u32 = c as u32;
            let w: u32 = if n < 0x80 {
                1
            } else if n < 0x800 {
                2
            } else if n < 0x10000 {
                3
            } else {
                4
            };
            self.col += w;
        }
    }

    fn bump_to(&mut self, k: usize)
        requires
            old(self).wf(),
            old(self).off <= k <= old(self).src@.len(),
        ensures
            final(self).wf(),
            final(self).src == old(self).src,
            final(self).off == k,
    {
        while self.off < k
            invariant
                self.wf(),
                self.src == old(self).src,
                self.off <= k <= self.src@.len(),
            decreases k - self.off,
        {
            self.bump();
        }
    }

    fn run(&mut self, k: Class)
        requires
            old(self).wf(),
        ensures
            final(self).wf(),
            final(self).src == old(self).src,
            final(self).off == run_end(old(self).src@, old(self).off as int, k),
    {
        while self.off < self.src.len() && is_of(k, self.src[self.off])
            invariant
                self.wf(),
                self.src == old(self).src,
                run_end(self.src@, self.off as int, k) == run_end(self.src@, old(self).off as int, k),
            decreases self.src@.len() - self.off,
        {
            self.bump();
        }
    }

    fn skip_trivia(&mut self)
        requires
            old(self).wf(),
        ensures
            final(self).wf(),
            final(self).src == old(self).src,
            final(self).off == skipped(old(self).src@, old(self).off as int),
            final(self).off >= old(self).off,
    {
        loop
            invariant
                self.wf(),
                self.src == old(self).src,
                self.off >= old(self).off,
                skipped(self.src@, self.off as int) == skipped(self.src@, old(self).off as int),
            ensures
                self.off == skipped(self.src@, self.off as int),
            decreases self.src@.len() - self.off,
        {
            if self.off >= self.src.len() {
                break;
            }
            let c = self.src[self.off];
            if is_blank(c) {
                self.bump();
            } else if c == '%' {
                proof {
                    run_range(self.src@, self.off as int, Class::Comment);
                }
                self.run(Class::Comment);
            } else {
                break;
            }
        }
    }

    /// Reads the token at the place.
    fn scan_token(&mut self) -> (r: Result<(Tok, String), String>)
        requires
            old(self).wf(),
            old(self).off < old(self).src@.len(),
        ensures
            match r {
                Ok((tok, text)) => {
                    &&& final(self).wf()
                    &&& final(self).src == old(self).src
                    &&& final(self).off > old(self).off
                    &&& tok != Tok::Eof
                    &&& scan(old(self).src@, old(self).off as int) == Ok::<(Tok, Seq<char>, int), Seq<char>>(
                        (tok, text@, final(self).off as int),
                    )
                },
                Err(msg) => scan(old(self).src@, old(self).off as int) == Err::<
                    (Tok, Seq<char>, int),
                    Seq<char>,
                >(msg@),
            },
    {
        let ghost s = self.src@;
        let start: usize = self.off;
        let len: usize = self.src.len();
        let c = self.src[start];
        if c == '"' {
            return self.lex_string();
        }
        let d = self.peek(1);
        let e = self.peek(2);
        proof {
            symbol_inside(s, start as int);
            assert(len == s.len());
        }
        match symbol_of(c, d, e) {
            Some((t, n)) => {
                self.bump_to(start + n);
                return Ok((t, part(&self.src, start, self.off)));
            },
            None => {},
        }
        if c == '#' {
            return Err(own("invalid token `#'"));
        }
        if is_digit(c) {
            let text = self.lex_number();
            return Ok((Tok::Numeral, text));
        }
        if is_ident_start(c) {
            proof {
                run_range(s, start as int, Class::Ident);
            }
            self.run(Class::Ident);
            let text = part(&self.src, start, self.off);
            let kind = if same(text.as_str(), "_") {
                Tok::Unbounded
            } else {
                match word_operator(text.as_str()) {
                    Some(t) => t,
                    None => match keyword(to_upper(&self.src, start, self.off).as_str()) {
                        Some(t) => t,
                        None => Tok::Identifier,
                    },
                }
            };
            return Ok((kind, text));
        }
        if is_opchar1(c) {
            proof {
                run_range(s, start as int, Class::Op);
            }
            self.run(Class::Op);
            let text = part(&self.src, start, self.off);
            return Ok((Tok::Identifier, text));
        }
        let mut msg = own("invalid character `");
        msg.push(lead_char(c));
        put(&mut msg, "'");
        assert(msg@ =~= "invalid character `"@ + seq![lead(c)] + "'"@);
        Err(msg)
    }

    fn lex_string(&mut self) -> (r: Result<(Tok, String), String>)
        requires
            old(self).wf(),
            old(self).off < old(self).src@.len(),
            old(self).src@[old(self).off as int] == '"',
        ensures
            match r {
                Ok((tok, text)) => {
                    &&& final(self).wf()
                    &&& final(self).src == old(self).src
                    &&& final(self).off > old(self).off
                    &&& tok != Tok::Eof
                    &&& scan(old(self).src@, old(self).off as int) == Ok::<(Tok, Seq<char>, int), Seq<char>>(
                        (tok, text@, final(self).off as int),
                    )
                },
                Err(msg) => scan(old(self).src@, old(self).off as int) == Err::<
                    (Tok, Seq<char>, int),
                    Seq<char>,
                >(msg@),
            },
    {
        let ghost s = self.src@;
        self.bump();
        let start: usize = self.off;
        while self.off < self.src.len() && self.src[self.off] != '"'
            invariant
                self.wf(),
                self.src@ == s,
                self.src == old(self).src,
                start == old(self).off + 1,
                old(self).src@[old(self).off as int] == '"',
                start <= self.off,
                string_end(s, self.off as int) == string_end(s, start as int),
            decreases self.src@.len() - self.off,
        {
            let c = self.src[self.off];
            self.bump();
            if c == '\\' {
                if self.off >= self.src.len() {
                    return Err(own("unterminated string"));
                }
                self.bump();
            }
        }
        if self.off >= self.src.len() {
            return Err(own("unterminated string"));
        }
        let text = part(&self.src, start, self.off);
        self.bump();
        Ok((Tok::Str, text))
    }

    fn lex_number(&mut self) -> (text: String)
        requires
            old(self).wf(),
            old(self).off < old(self).src@.len(),
            digit(old(self).src@[old(self).off as int]),
        ensures
            final(self).wf(),
            final(self).src == old(self).src,
            final(self).off > old(self).off,
            (text@, final(self).off as int) == number(old(self).src@, old(self).off as int),
    {
        let ghost s = self.src@;
        let start: usize = self.off;
        let len: usize = self.src.len();
        let d = self.peek(1);
        let e = self.peek(2);
        if self.src[start] == '0' && (d == 'x' || d == 'X') && is_hex(e) {
            assert(start + 2 < len);
            self.bump_to(start + 2);
            proof {
                run_range(s, start + 2, Class::Hex);
            }
            self.run(Class::Hex);
            return radix_text(&self.src, start + 2, self.off, 16);
        }
        if self.src[start] == '0' && (d == 'b' || d == 'B') && (e == '0' || e == '1') {
            assert(start + 2 < len);
            self.bump_to(start + 2);
            proof {
                run_range(s, start + 2, Class::Bin);
            }
            self.run(Class::Bin);
            return radix_text(&self.src, start + 2, self.off, 2);
        }
        proof {
            run_range(s, start as int, Class::Digit);
        }
        self.run(Class::Digit);
        part(&self.src, start, self.off)
    }

    /// The tokens of the text.
    pub fn tokenize(self) -> (r: Result<Vec<Token>, LexError>)
        requires
            self.wf(),
        ensures
            match r {
                Ok(ts) => {
                    &&& tokens(self.text(), self.offset()) == Ok::<Seq<TokenV>, Fail>(token_models(ts@))
                    &&& ended(token_models(ts@))
                    &&& ts@.len() <= self.text().len() - self.offset() + 1
                },
                Err(e) => tokens(self.text(), self.offset()) == Err::<Seq<TokenV>, Fail>(e.model()),
            },
    {
        let ghost s = self.src@;
        let ghost first = self.off as int;
        let mut lx = self;
        let mut out: Vec<Token> = Vec::new();
        loop
            invariant
                lx.wf(),
                lx.src@ == s,
                first <= lx.off,
                out@.len() <= lx.off - first,
                prefixed(token_models(out@), tokens(s, lx.off as int)) == tokens(s, first),
                forall|i: int| 0 <= i < out@.len() ==> (#[trigger] out@[i]).tok != Tok::Eof,
                s == self.text(),
                first == self.offset(),
            decreases s.len() - lx.off,
        {
            let ghost i = lx.off as int;
            let ghost out0 = token_models(out@);
            lx.skip_trivia();
            let start = lx.pos();
            let ghost j = lx.off as int;
            if lx.off >= lx.src.len() {
                out.push(Token { tok: Tok::Eof, text: own(""), span: Span::new(start, start) });
                proof {
                    let t = TokenV { tok: Tok::Eof, text: ""@, span: Span { start, end: start } };
                    assert(tokens(s, i) == Ok::<Seq<TokenV>, Fail>(seq![t]));
                    assert(token_models(out@) =~= out0 + seq![t]);
                }
                return Ok(out);
            }
            match lx.scan_token() {
                Err(msg) => {
                    return Err(LexError { pos: start, msg });
                },
                Ok((tok, text)) => {
                    let end = lx.pos();
                    let t = Token { tok, text, span: Span::new(start, end) };
                    let ghost tm = t.model();
                    out.push(t);
                    proof {
                        assert(token_models(out@) =~= out0 + seq![tm]);
                        match tokens(s, lx.off as int) {
                            Ok(rest) => {
                                assert(out0 + (seq![tm] + rest) =~= (out0 + seq![tm]) + rest);
                            },
                            Err(_) => {},
                        }
                    }
                },
            }
        }
    }
}

/// The tokens end with the end of the text, and nowhere before.
pub open spec fn ended(ts: Seq<TokenV>) -> bool {
    &&& ts.len() > 0
    &&& ts.last().tok == Tok::Eof
    &&& forall|i: int| 0 <= i < ts.len() - 1 ==> (#[trigger] ts[i]).tok != Tok::Eof
}

fn radix_text(s: &Vec<char>, a: usize, b: usize, radix: u32) -> (r: String)
    requires
        a < b <= s@.len(),
        radix == 16 || radix == 2,
        forall|j: int| a <= j < b ==> belongs(
            if radix == 16 {
                Class::Hex
            } else {
                Class::Bin
            },
            #[trigger] s@[j],
        ),
    ensures
        r@ == dec_nat(numeral_value(s@.subrange(a as int, b as int), radix as nat)),
{
    let text = part(s, a, b);
    proof {
        let t = s@.subrange(a as int, b as int);
        assert forall|i: int| 0 <= i < t.len() implies digit_value(#[trigger] t[i]) < radix && t[i] != '_' && t[i]
            != '+' by {
            assert(t[i] == s@[a + i]);
        }
        assert(t[0] != '_' && t[0] != '+');
        assert(parse_nat(t, radix as nat) == Some(numeral_value(t, radix as nat)));
    }
    match Int::parse_radix(text.as_str(), radix) {
        Some(n) => n.text(),
        None => text,
    }
}

/// The tokens of a text.
pub fn tokenize(src: &str) -> (r: Result<Vec<Token>, LexError>)
    requires
        sized(src@),
    ensures
        match r {
            Ok(ts) => {
                &&& tokens(src@, 0) == Ok::<Seq<TokenV>, Fail>(token_models(ts@))
                &&& ended(token_models(ts@))
                &&& ts@.len() <= src@.len() + 1
            },
            Err(e) => tokens(src@, 0) == Err::<Seq<TokenV>, Fail>(e.model()),
        },
{
    Lexer::new(src).tokenize()
}

} // verus!
