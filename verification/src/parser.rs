//! The recursive-descent parser: one forward character cursor, never
//! backtracking, building the typed AST with source positions.

use vstd::prelude::*;
use crate::ast::{AST, AstV, Const, ConstV, Exp, exp_view, ExpV, Pos, Type, Variable, VarV};
use crate::ast::{copy_chars, copy_const, copy_exp, is_let_of, lemma_spec_lookup, lookup,
    spec_lookup, stat_shaped, stats_shaped};
use crate::lexer::{is_space_char, space_char};
use crate::typechecker::{ast_well_typed, consts_all_asm, get_type, rhs_type, spec_get_type,
    stat_well_typed};

verus! {

/// The parser's cursor: current line, column and character index.
pub struct Token {
    pub line: usize,
    pub col: usize,
    pub idx: usize,
}

/// A parse error, carrying the position and the offending text.
#[derive(Clone, Debug, PartialEq)]
pub enum ParseErr {
    /// A string literal misses its closing quote.
    UnclosedString(Pos),
    /// A string literal holds no assembly text.
    EmptyAsm(Pos),
    /// A block comment misses its closing delimiter.
    UnclosedComment(Pos),
    /// A `/` is followed by neither `/` nor `*`.
    BadComment(Pos),
    /// A statement misses its trailing `;`.
    ExpectedSemicolon(Pos, Vec<char>),
    /// A referenced binding has a form that cannot stand here.
    UnexpectedConstruct(Pos, Vec<char>),
    /// A bare identifier names no earlier binding.
    UndefinedRef(Pos, Vec<char>),
    /// A called identifier names no earlier binding.
    UndefinedCall(Pos, Vec<char>),
    /// A token where `,` or the closing bracket was expected.
    UnexpectedSymbol(Pos, Vec<char>),
    /// A gadget or array without elements.
    EmptySet(Pos),
    /// A token where a quoted assembly string was expected.
    ExpectedAsm(Pos, Vec<char>),
    /// A separator token where a statement was expected.
    UnexpectedKeyword(Pos, Vec<char>),
    /// An identifier holding a reserved character.
    ReservedSymbol(Pos, char, Vec<char>),
    /// A token where `=` or `;` was expected.
    UnexpectedIdent(Pos, Vec<char>),
}

/// Model of a `ParseErr`.
pub enum ParseErrV {
    UnclosedString(Pos),
    EmptyAsm(Pos),
    UnclosedComment(Pos),
    BadComment(Pos),
    ExpectedSemicolon(Pos, Seq<char>),
    UnexpectedConstruct(Pos, Seq<char>),
    UndefinedRef(Pos, Seq<char>),
    UndefinedCall(Pos, Seq<char>),
    UnexpectedSymbol(Pos, Seq<char>),
    EmptySet(Pos),
    ExpectedAsm(Pos, Seq<char>),
    UnexpectedKeyword(Pos, Seq<char>),
    ReservedSymbol(Pos, char, Seq<char>),
    UnexpectedIdent(Pos, Seq<char>),
}

impl DeepView for ParseErr {
    type V = ParseErrV;

    open spec fn deep_view(&self) -> ParseErrV {
        match self {
            ParseErr::UnclosedString(p) => ParseErrV::UnclosedString(*p),
            ParseErr::EmptyAsm(p) => ParseErrV::EmptyAsm(*p),
            ParseErr::UnclosedComment(p) => ParseErrV::UnclosedComment(*p),
            ParseErr::BadComment(p) => ParseErrV::BadComment(*p),
            ParseErr::ExpectedSemicolon(p, s) => ParseErrV::ExpectedSemicolon(*p, s@),
            ParseErr::UnexpectedConstruct(p, s) => ParseErrV::UnexpectedConstruct(*p, s@),
            ParseErr::UndefinedRef(p, s) => ParseErrV::UndefinedRef(*p, s@),
            ParseErr::UndefinedCall(p, s) => ParseErrV::UndefinedCall(*p, s@),
            ParseErr::UnexpectedSymbol(p, s) => ParseErrV::UnexpectedSymbol(*p, s@),
            ParseErr::EmptySet(p) => ParseErrV::EmptySet(*p),
            ParseErr::ExpectedAsm(p, s) => ParseErrV::ExpectedAsm(*p, s@),
            ParseErr::UnexpectedKeyword(p, s) => ParseErrV::UnexpectedKeyword(*p, s@),
            ParseErr::ReservedSymbol(p, c, s) => ParseErrV::ReservedSymbol(*p, *c, s@),
            ParseErr::UnexpectedIdent(p, s) => ParseErrV::UnexpectedIdent(*p, s@),
        }
    }
}

// ----- reserved and separator characters -----

/// Whether `c` is one of the language's reserved symbols.
pub open spec fn is_reserved_char(c: char) -> bool {
    c == '-' || c == '+' || c == '/' || c == '*' || c == '>' || c == '<' || c == '=' || c == '|'
        || c == '&' || c == '!' || c == '%' || c == '(' || c == ')' || c == '{' || c == '}' || c
        == ',' || c == '.' || c == ':' || c == ';' || c == '#' || c == '@' || c == '?' || c == '\''
        || c == '"'
}

/// Executable form of `is_reserved_char`.
pub fn reserved_char(c: char) -> (r: bool)
    ensures
        r == is_reserved_char(c),
{
    c == '-' || c == '+' || c == '/' || c == '*' || c == '>' || c == '<' || c == '=' || c == '|'
        || c == '&' || c == '!' || c == '%' || c == '(' || c == ')' || c == '{' || c == '}' || c
        == ',' || c == '.' || c == ':' || c == ';' || c == '#' || c == '@' || c == '?' || c == '\''
        || c == '"'
}

/// Whether `c` separates tokens.
pub open spec fn is_sep_char(c: char) -> bool {
    c == ',' || c == ';' || c == '=' || c == '"' || c == '/' || c == '[' || c == ']' || c == '{'
        || c == '}' || c == '\u{0}' || is_space_char(c)
}

/// Executable form of `is_sep_char`.
fn sep(c: char) -> (r: bool)
    ensures
        r == is_sep_char(c),
{
    c == ',' || c == ';' || c == '=' || c == '"' || c == '/' || c == '[' || c == ']' || c == '{'
        || c == '}' || c == '\u{0}' || space_char(c)
}

/// Whether a token is a single separator or only white space.
#[verifier::loop_isolation(false)]
fn sep_str(xs: &[char]) -> (r: bool)
    ensures
        r == spec_sep_str(xs@),
{
    if xs.len() == 1 {
        let b = sep(xs[0]);
        return b;
    }
    let mut i: usize = 0;
    while i < xs.len()
        invariant
            i <= xs@.len(),
            forall|k: int| 0 <= k < i ==> is_space_char(#[trigger] xs@[k]),
        decreases xs.len() - i,
    {
        if !space_char(xs[i]) {
            return false;
        }
        i = i + 1;
    }
    true
}

/// Whether `c` occurs in `xs`.
#[verifier::loop_isolation(false)]
fn contains_c(xs: &[char], c: char) -> (r: bool)
    ensures
        r == contains_char(xs@, c),
{
    let mut i: usize = 0;
    while i < xs.len()
        invariant
            i <= xs@.len(),
            forall|k: int| 0 <= k < i ==> xs@[k] != c,
        decreases xs.len() - i,
    {
        if xs[i] == c {
            return true;
        }
        i = i + 1;
    }
    false
}

/// A string holding a reserved character holds one somewhere.
proof fn lemma_contains_reserved(xs: Seq<char>, c: char)
    requires
        contains_char(xs, c),
        is_reserved_char(c),
    ensures
        spec_has_reserved(xs),
{
    let k = choose|k: int| 0 <= k < xs.len() && xs[k] == c;
    assert(is_reserved_char(xs[k]));
}

/// The first reserved character occurring in `xs`, scanning the reserved
/// list in its fixed order, as the language defines it.
fn reserved(xs: &[char]) -> (r: (char, bool))
    ensures
        r.1 == spec_has_reserved(xs@),
        r.1 ==> r.0 == first_reserved(xs@),
        !r.1 ==> r == (' ', false),
{
    let mut hit: char = ' ';
    let mut found: bool = false;
    if contains_c(xs, '-') {
        hit = '-';
        found = true;
    } else if contains_c(xs, '+') {
        hit = '+';
        found = true;
    } else if contains_c(xs, '/') {
        hit = '/';
        found = true;
    } else if contains_c(xs, '*') {
        hit = '*';
        found = true;
    } else if contains_c(xs, '>') {
        hit = '>';
        found = true;
    } else if contains_c(xs, '<') {
        hit = '<';
        found = true;
    } else if contains_c(xs, '=') {
        hit = '=';
        found = true;
    } else if contains_c(xs, '|') {
        hit = '|';
        found = true;
    } else if contains_c(xs, '&') {
        hit = '&';
        found = true;
    } else if contains_c(xs, '!') {
        hit = '!';
        found = true;
    } else if contains_c(xs, '%') {
        hit = '%';
        found = true;
    } else if contains_c(xs, '(') {
        hit = '(';
        found = true;
    } else if contains_c(xs, ')') {
        hit = ')';
        found = true;
    } else if contains_c(xs, '{') {
        hit = '{';
        found = true;
    } else if contains_c(xs, '}') {
        hit = '}';
        found = true;
    } else if contains_c(xs, ',') {
        hit = ',';
        found = true;
    } else if contains_c(xs, '.') {
        hit = '.';
        found = true;
    } else if contains_c(xs, ':') {
        hit = ':';
        found = true;
    } else if contains_c(xs, ';') {
        hit = ';';
        found = true;
    } else if contains_c(xs, '#') {
        hit = '#';
        found = true;
    } else if contains_c(xs, '@') {
        hit = '@';
        found = true;
    } else if contains_c(xs, '?') {
        hit = '?';
        found = true;
    } else if contains_c(xs, '\'') {
        hit = '\'';
        found = true;
    } else if contains_c(xs, '"') {
        hit = '"';
        found = true;
    }
    proof {
        if found {
            lemma_contains_reserved(xs@, hit);
        } else {
            assert forall|k: int| 0 <= k < xs@.len() implies !is_reserved_char(
                #[trigger] xs@[k],
            ) by {}
        }
    }
    (hit, found)
}


/// Whether a token is a quoted string: first and last character `"`.
fn is_string(xs: &[char]) -> (r: bool)
    ensures
        r <==> xs@.len() >= 1 && xs@[0] == '"' && xs@[xs@.len() - 1] == '"',
{
    xs.len() >= 1 && xs[0] == '"' && xs[xs.len() - 1] == '"'
}

// ----- well-formedness of parser output -----

/// A well-formed identifier: non-empty, free of reserved symbols and of
/// token separators.
pub open spec fn id_wf(id: Seq<char>) -> bool {
    id.len() > 0 && (forall|k: int|
        0 <= k < id.len() ==> !is_reserved_char(#[trigger] id[k]) && !is_sep_char(id[k]))
}

/// A well-formed set element: non-empty text typed `Asm` or `Gadget`.
pub open spec fn elem_wf(c: ConstV) -> bool {
    match c {
        ConstV::Asm(s, _, ty) => s.len() > 0 && (ty == Type::AsmType || ty == Type::GadgetType),
    }
}

/// A well-formed gadget or array body: non-empty, all elements well formed.
pub open spec fn set_wf(cs: Seq<ConstV>) -> bool {
    cs.len() > 0 && (forall|i: int| 0 <= i < cs.len() ==> elem_wf(#[trigger] cs[i]))
}

/// A well-formed `let` right-hand side.
pub open spec fn rhs_wf(e: ExpV) -> bool {
    match e {
        ExpV::Gadget(g) => set_wf(g),
        ExpV::Array(a) => set_wf(a),
        ExpV::Constant(c) => match c {
            ConstV::Asm(s, _, ty) => s.len() > 0 && ty == Type::AsmType,
        },
        ExpV::Call(v) => match v {
            VarV::Var(cid, _, cty) => id_wf(cid) && cty == Type::GadgetType,
        },
        _ => false,
    }
}

/// A well-formed statement as the parser produces it.
pub open spec fn stat_wf(st: AstV) -> bool {
    match st {
        AstV::Stat(e) => match e {
            ExpV::Gadget(g) => set_wf(g),
            ExpV::Call(v) => match v {
                VarV::Var(id, _, _) => id_wf(id),
            },
            ExpV::Let(v, rhs) => match v {
                VarV::Var(id, _, ty) => id_wf(id) && rhs_wf(*rhs) && rhs_type(*rhs) == ty,
            },
            _ => false,
        },
    }
}

/// A well-formed program as the parser produces it.
pub open spec fn ast_wf(s: Seq<AstV>) -> bool {
    forall|i: int| 0 <= i < s.len() ==> stat_wf(#[trigger] s[i])
}

/// Every well-formed statement is also shaped as the later passes expect.
pub proof fn lemma_wf_shaped(s: Seq<AstV>)
    requires
        ast_wf(s),
    ensures
        stats_shaped(s),
{
    assert forall|i: int| 0 <= i < s.len() implies stat_shaped(#[trigger] s[i]) by {
        assert(stat_wf(s[i]));
    }
}

// ----- what the parser computes -----

/// The position a cursor reports.
pub open spec fn pos_at(t: Token) -> Pos {
    Pos::Pos(t.line, t.col)
}

/// The cursor after consuming the character it rests on: the line and
/// column counts advance (saturating), the index stops at the end.
pub open spec fn spec_next(s: Seq<char>, t: Token) -> Token {
    let c = sym_at(s, t.idx as int);
    Token {
        line: if c == '\n' {
            if t.line < usize::MAX {
                (t.line + 1) as usize
            } else {
                t.line
            }
        } else {
            t.line
        },
        col: if c == '\n' {
            1usize
        } else if t.col < usize::MAX {
            (t.col + 1) as usize
        } else {
            t.col
        },
        idx: if t.idx < s.len() {
            (t.idx + 1) as usize
        } else {
            t.idx
        },
    }
}

/// The collected run of `\` escapes (and the escaped character after an
/// odd run), with the cursor after it.
pub open spec fn spec_bs(s: Seq<char>, t: Token, acc: Seq<char>) -> (Seq<char>, Token)
    decreases s.len() - t.idx,
    when t.idx <= s.len() && s.len() <= usize::MAX
{
    if sym_at(s, t.idx as int) == '\\' {
        spec_bs(s, spec_next(s, t), acc.push('\\'))
    } else if acc.len() % 2 != 0 {
        (acc.push(sym_at(s, t.idx as int)), spec_next(s, t))
    } else {
        (acc, t)
    }
}

/// The escape run neither shrinks the cursor nor passes the end, and
/// moves it when it starts on a `\`.
proof fn lemma_bs_mono(s: Seq<char>, t: Token, acc: Seq<char>)
    requires
        t.idx <= s.len(),
        s.len() <= usize::MAX,
    ensures
        t.idx <= spec_bs(s, t, acc).1.idx <= s.len(),
        sym_at(s, t.idx as int) == '\\' ==> spec_bs(s, t, acc).1.idx > t.idx,
    decreases s.len() - t.idx,
{
    if sym_at(s, t.idx as int) == '\\' {
        lemma_bs_mono(s, spec_next(s, t), acc.push('\\'));
    }
}

/// The rest of a string literal: characters up to the closing quote,
/// escapes kept verbatim; unterminated literals fail at the opening
/// quote, empty ones after the closing quote.
pub open spec fn spec_str_loop(s: Seq<char>, t: Token, acc: Seq<char>, opening: Pos) -> Result<
    (Seq<char>, Token),
    ParseErrV,
>
    decreases s.len() - t.idx,
    when t.idx <= s.len() && s.len() <= usize::MAX
    via spec_str_loop_dec
{
    let c = sym_at(s, t.idx as int);
    if c == '"' {
        let t2 = spec_next(s, t);
        let acc2 = acc.push('"');
        if acc2.len() < 3 {
            Err(ParseErrV::EmptyAsm(pos_at(t2)))
        } else {
            Ok((acc2, t2))
        }
    } else if c == '\\' {
        let b = spec_bs(s, t, Seq::empty());
        spec_str_loop(s, b.1, acc + b.0, opening)
    } else if c == '\u{0}' {
        Err(ParseErrV::UnclosedString(opening))
    } else {
        spec_str_loop(s, spec_next(s, t), acc.push(c), opening)
    }
}

#[via_fn]
proof fn spec_str_loop_dec(s: Seq<char>, t: Token, acc: Seq<char>, opening: Pos) {
    if t.idx <= s.len() && s.len() <= usize::MAX {
        lemma_bs_mono(s, t, Seq::empty());
    }
}

/// A whole string literal from its opening quote, quotes included.
pub open spec fn spec_string(s: Seq<char>, t: Token) -> Result<(Seq<char>, Token), ParseErrV> {
    let t1 = spec_next(s, t);
    spec_str_loop(s, t1, seq![sym_at(s, t.idx as int)], pos_at(t1))
}

/// The literal's cursor moves and stays within the text.
proof fn lemma_str_loop_mono(s: Seq<char>, t: Token, acc: Seq<char>, opening: Pos)
    requires
        t.idx <= s.len(),
        s.len() <= usize::MAX,
    ensures
        spec_str_loop(s, t, acc, opening) matches Ok(p) ==> t.idx <= p.1.idx <= s.len(),
    decreases s.len() - t.idx,
{
    let c = sym_at(s, t.idx as int);
    if c == '"' {
    } else if c == '\\' {
        let b = spec_bs(s, t, Seq::empty());
        lemma_bs_mono(s, t, Seq::empty());
        lemma_str_loop_mono(s, b.1, acc + b.0, opening);
    } else if c == '\u{0}' {
    } else {
        lemma_str_loop_mono(s, spec_next(s, t), acc.push(c), opening);
    }
}

/// The cursor after a `//` comment: everything through the line end.
pub open spec fn spec_lineskip(s: Seq<char>, t: Token) -> Token
    decreases s.len() - t.idx,
    when t.idx <= s.len() && s.len() <= usize::MAX
{
    let c = sym_at(s, t.idx as int);
    if c == '\n' || c == '\u{0}' {
        spec_next(s, t)
    } else {
        spec_lineskip(s, spec_next(s, t))
    }
}

/// The line skip neither shrinks the cursor nor passes the end.
proof fn lemma_lineskip_mono(s: Seq<char>, t: Token)
    requires
        t.idx <= s.len(),
        s.len() <= usize::MAX,
    ensures
        t.idx <= spec_lineskip(s, t).idx <= s.len(),
    decreases s.len() - t.idx,
{
    let c = sym_at(s, t.idx as int);
    if !(c == '\n' || c == '\u{0}') {
        lemma_lineskip_mono(s, spec_next(s, t));
    }
}

/// The rest of a `/* ... */` comment: consumed through the first `*/`,
/// or failed at the opening delimiter.
pub open spec fn spec_mlc_loop(s: Seq<char>, t: Token, opening: Pos) -> Result<Token, ParseErrV>
    decreases s.len() - t.idx,
    when t.idx <= s.len() && s.len() <= usize::MAX
{
    let c = sym_at(s, t.idx as int);
    if c == '\u{0}' {
        Err(ParseErrV::UnclosedComment(opening))
    } else {
        let t2 = spec_next(s, t);
        if c == '*' && sym_at(s, t2.idx as int) == '/' {
            Ok(spec_next(s, t2))
        } else {
            spec_mlc_loop(s, t2, opening)
        }
    }
}

/// The block-comment scan neither shrinks the cursor nor passes the end.
proof fn lemma_mlc_mono(s: Seq<char>, t: Token, opening: Pos)
    requires
        t.idx <= s.len(),
        s.len() <= usize::MAX,
    ensures
        spec_mlc_loop(s, t, opening) matches Ok(t2) ==> t.idx <= t2.idx <= s.len(),
    decreases s.len() - t.idx,
{
    let c = sym_at(s, t.idx as int);
    if c != '\u{0}' {
        let t2 = spec_next(s, t);
        if !(c == '*' && sym_at(s, t2.idx as int) == '/') {
            lemma_mlc_mono(s, t2, opening);
        }
    }
}

/// A whole comment from its `/`: a line comment, a block comment, or
/// the bad-delimiter error.
pub open spec fn spec_comment(s: Seq<char>, t: Token) -> Result<Token, ParseErrV> {
    let t1 = spec_next(s, t);
    let c = sym_at(s, t1.idx as int);
    if c == '/' {
        Ok(spec_lineskip(s, t1))
    } else if c == '*' {
        spec_mlc_loop(s, spec_next(s, t1), pos_at(t1))
    } else {
        Err(ParseErrV::BadComment(pos_at(t1)))
    }
}

/// A comment moves the cursor and keeps it within the text.
proof fn lemma_comment_mono(s: Seq<char>, t: Token)
    requires
        t.idx <= s.len(),
        s.len() <= usize::MAX,
    ensures
        spec_comment(s, t) matches Ok(t2) ==> t.idx <= t2.idx <= s.len(),
        spec_comment(s, t) matches Ok(t2) ==> (t.idx < s.len() ==> t2.idx > t.idx),
{
    let t1 = spec_next(s, t);
    let c = sym_at(s, t1.idx as int);
    if c == '/' {
        lemma_lineskip_mono(s, t1);
    } else if c == '*' {
        lemma_mlc_mono(s, spec_next(s, t1), pos_at(t1));
    }
}

/// The rest of an identifier run: characters up to the next separator.
pub open spec fn spec_run(s: Seq<char>, t: Token, acc: Seq<char>) -> (Seq<char>, Token)
    decreases s.len() - t.idx,
    when t.idx <= s.len() && s.len() <= usize::MAX
{
    let c = sym_at(s, t.idx as int);
    if is_sep_char(c) {
        (acc, t)
    } else {
        spec_run(s, spec_next(s, t), acc.push(c))
    }
}

/// The identifier run neither shrinks the cursor nor passes the end.
proof fn lemma_run_mono(s: Seq<char>, t: Token, acc: Seq<char>)
    requires
        t.idx <= s.len(),
        s.len() <= usize::MAX,
    ensures
        t.idx <= spec_run(s, t, acc).1.idx <= s.len(),
    decreases s.len() - t.idx,
{
    let c = sym_at(s, t.idx as int);
    if !is_sep_char(c) {
        lemma_run_mono(s, spec_next(s, t), acc.push(c));
    }
}

/// The next token: a string literal, a single separator, or an
/// identifier run, after white space and comments.
pub open spec fn spec_accept(s: Seq<char>, t: Token) -> Result<(Seq<char>, Token), ParseErrV>
    decreases s.len() - t.idx,
    when t.idx <= s.len() && s.len() <= usize::MAX
    via spec_accept_dec
{
    let c = sym_at(s, t.idx as int);
    if c == '/' {
        match spec_comment(s, t) {
            Ok(t1) => spec_accept(s, t1),
            Err(e) => Err(e),
        }
    } else if c == '"' {
        spec_string(s, t)
    } else if is_space_char(c) {
        spec_accept(s, spec_next(s, t))
    } else if is_sep_char(c) {
        Ok((seq![c], spec_next(s, t)))
    } else {
        Ok(spec_run(s, spec_next(s, t), seq![c]))
    }
}

#[via_fn]
proof fn spec_accept_dec(s: Seq<char>, t: Token) {
    if t.idx <= s.len() && s.len() <= usize::MAX {
        lemma_comment_mono(s, t);
    }
}

/// An accepted token neither shrinks the cursor nor passes the end, and
/// moves it unless the token is the end marker.
proof fn lemma_accept_mono(s: Seq<char>, t: Token)
    requires
        t.idx <= s.len(),
        s.len() <= usize::MAX,
    ensures
        spec_accept(s, t) matches Ok(p) ==> t.idx <= p.1.idx <= s.len(),
        spec_accept(s, t) matches Ok(p) ==> (p.1.idx > t.idx || p.0 == seq!['\u{0}']),
    decreases s.len() - t.idx,
{
    let c = sym_at(s, t.idx as int);
    if c == '/' {
        lemma_comment_mono(s, t);
        match spec_comment(s, t) {
            Ok(t1) => {
                lemma_accept_mono(s, t1);
            },
            Err(_) => {},
        }
    } else if c == '"' {
        lemma_str_loop_mono(
            s,
            spec_next(s, t),
            seq![sym_at(s, t.idx as int)],
            pos_at(spec_next(s, t)),
        );
    } else if is_space_char(c) {
        lemma_accept_mono(s, spec_next(s, t));
    } else if is_sep_char(c) {
        if t.idx >= s.len() {
            assert(seq![c] =~= seq!['\u{0}']);
        }
    } else {
        lemma_run_mono(s, spec_next(s, t), seq![c]);
    }
}

// ----- the cursor -----

/// The character the cursor rests on, or the terminator past the end.
pub open spec fn sym_at(s: Seq<char>, i: int) -> char {
    if 0 <= i < s.len() {
        s[i]
    } else {
        '\u{0}'
    }
}

/// Peeks at the current character without advancing.
fn sym(t: &Token, src: &[char]) -> (c: char)
    ensures
        c == sym_at(src@, t.idx as int),
{
    if t.idx < src.len() {
        src[t.idx]
    } else {
        '\u{0}'
    }
}

/// The cursor's current source position.
fn pos_of(t: &Token) -> (p: Pos)
    ensures
        p == Pos::Pos(t.line, t.col),
{
    Pos::Pos(t.line, t.col)
}

/// Advances the cursor over the current character, keeping the line and
/// column counts, and returns that character.
fn next_sym(t: &mut Token, src: &[char]) -> (c: char)
    requires
        old(t).idx <= src@.len(),
        src@.len() <= usize::MAX,
    ensures
        final(t).idx <= src@.len(),
        c == sym_at(src@, old(t).idx as int),
        old(t).idx < src@.len() ==> final(t).idx == old(t).idx + 1,
        old(t).idx >= src@.len() ==> final(t).idx == old(t).idx,
        *final(t) == spec_next(src@, *old(t)),
{
    let c = sym(t, src);
    if c == '\n' {
        if t.line < usize::MAX {
            t.line = t.line + 1;
        }
        t.col = 0;
    }
    if t.col < usize::MAX {
        t.col = t.col + 1;
    }
    if t.idx < src.len() {
        t.idx = t.idx + 1;
    }
    c
}

/// Collects a run of `\` escapes, and the escaped character after an odd
/// run.
#[verifier::loop_isolation(false)]
fn backslash(t: &mut Token, src: &[char]) -> (r: Vec<char>)
    requires
        old(t).idx <= src@.len(),
        src@.len() <= usize::MAX,
    ensures
        final(t).idx <= src@.len(),
        final(t).idx >= old(t).idx,
        sym_at(src@, old(t).idx as int) == '\\' ==> final(t).idx > old(t).idx,
        (r@, *final(t)) == spec_bs(src@, *old(t), Seq::<char>::empty()),
    decreases src@.len() - old(t).idx,
{
    let mut s: Vec<char> = Vec::new();
    proof {
        assert(s@ =~= Seq::<char>::empty());
    }
    while sym(t, src) == '\\'
        invariant
            t.idx <= src@.len(),
            t.idx >= old(t).idx,
            sym_at(src@, old(t).idx as int) == '\\' && t.idx == old(t).idx ==> sym_at(
                src@,
                t.idx as int,
            ) == '\\',
            spec_bs(src@, *old(t), Seq::<char>::empty()) == spec_bs(src@, *t, s@),
        decreases src@.len() - t.idx,
    {
        let ghost tp = *t;
        let ghost sp = s@;
        let c2 = next_sym(t, src);
        s.push(c2);
        proof {
            assert(spec_bs(src@, tp, sp) == spec_bs(src@, *t, s@));
        }
    }
    if s.len() % 2 != 0 {
        let ghost tp = *t;
        let ghost sp = s@;
        let c2 = next_sym(t, src);
        s.push(c2);
        proof {
            assert(spec_bs(src@, tp, sp) == (s@, *t));
        }
    } else {
        proof {
            assert(spec_bs(src@, *t, s@) == (s@, *t));
        }
    }
    s
}

/// Reads a whole string literal, quotes included.
#[verifier::loop_isolation(false)]
fn string(t: &mut Token, src: &[char]) -> (r: Result<Vec<char>, ParseErr>)
    requires
        old(t).idx <= src@.len(),
        src@.len() <= usize::MAX,
        sym_at(src@, old(t).idx as int) == '"',
    ensures
        final(t).idx <= src@.len(),
        final(t).idx > old(t).idx,
        r matches Ok(xs) ==> xs@.len() >= 3 && xs@[0] == '"' && xs@[xs@.len() - 1] == '"',
        r matches Ok(xs) ==> spec_string(src@, *old(t)) == Ok::<(Seq<char>, Token), ParseErrV>(
            (xs@, *final(t)),
        ),
        r matches Err(e) ==> spec_string(src@, *old(t)) == Err::<(Seq<char>, Token), ParseErrV>(
            e.deep_view(),
        ),
{
    let mut s: Vec<char> = Vec::new();
    s.push(next_sym(t, src));
    let opening = pos_of(t);
    proof {
        assert(s@ =~= seq![sym_at(src@, old(t).idx as int)]);
    }
    while sym(t, src) != '"'
        invariant
            t.idx <= src@.len(),
            t.idx > old(t).idx,
            s@.len() >= 1,
            s@[0] == '"',
            spec_string(src@, *old(t)) == spec_str_loop(src@, *t, s@, opening),
        decreases src@.len() - t.idx,
    {
        let ghost tp = *t;
        let ghost sp = s@;
        let c = sym(t, src);
        if c == '\\' {
            let mut bs = backslash(t, src);
            s.append(&mut bs);
            proof {
                assert(spec_str_loop(src@, tp, sp, opening) == spec_str_loop(
                    src@,
                    *t,
                    s@,
                    opening,
                ));
            }
        } else if c == '\u{0}' {
            proof {
                assert(spec_str_loop(src@, tp, sp, opening) == Err::<(Seq<char>, Token), ParseErrV>(
                    ParseErrV::UnclosedString(opening),
                ));
            }
            return Err(ParseErr::UnclosedString(opening));
        } else {
            s.push(next_sym(t, src));
            proof {
                assert(spec_str_loop(src@, tp, sp, opening) == spec_str_loop(
                    src@,
                    *t,
                    s@,
                    opening,
                ));
            }
        }
    }
    let ghost tp = *t;
    let ghost sp = s@;
    s.push(next_sym(t, src));
    proof {
        assert(s@ == sp.push('"'));
    }
    if s.len() < 3 {
        proof {
            assert(spec_str_loop(src@, tp, sp, opening) == Err::<(Seq<char>, Token), ParseErrV>(
                ParseErrV::EmptyAsm(pos_at(*t)),
            ));
        }
        return Err(ParseErr::EmptyAsm(pos_of(t)));
    }
    proof {
        assert(spec_str_loop(src@, tp, sp, opening) == Ok::<(Seq<char>, Token), ParseErrV>(
            (s@, *t),
        ));
    }
    Ok(s)
}

/// Skips a `/* ... */` comment, the leading `*` already at the cursor;
/// an unterminated comment fails at its opening delimiter.
#[verifier::loop_isolation(false)]
fn multiline_comment(t: &mut Token, src: &[char], opening: Pos) -> (r: Result<(), ParseErr>)
    requires
        old(t).idx <= src@.len(),
        src@.len() <= usize::MAX,
    ensures
        final(t).idx <= src@.len(),
        final(t).idx >= old(t).idx,
        r matches Ok(_) ==> spec_mlc_loop(src@, spec_next(src@, *old(t)), opening) == Ok::<
            Token,
            ParseErrV,
        >(*final(t)),
        r matches Err(e) ==> spec_mlc_loop(src@, spec_next(src@, *old(t)), opening) == Err::<
            Token,
            ParseErrV,
        >(e.deep_view()),
{
    let ghost t1 = spec_next(src@, *old(t));
    let mut s: char;
    next_sym(t, src);
    s = sym(t, src);
    while s != '\u{0}'
        invariant
            t.idx <= src@.len(),
            t.idx >= old(t).idx,
            s == sym_at(src@, t.idx as int),
            spec_mlc_loop(src@, t1, opening) == spec_mlc_loop(src@, *t, opening),
        decreases src@.len() - t.idx,
    {
        let ghost tp = *t;
        next_sym(t, src);
        if s == '*' && sym(t, src) == '/' {
            next_sym(t, src);
            proof {
                assert(spec_mlc_loop(src@, tp, opening) == Ok::<Token, ParseErrV>(*t));
            }
            return Ok(());
        }
        proof {
            assert(spec_mlc_loop(src@, tp, opening) == spec_mlc_loop(src@, *t, opening));
        }
        s = sym(t, src);
    }
    Err(ParseErr::UnclosedComment(opening))
}

/// Skips a `//` line comment or a `/* ... */` block comment.
#[verifier::loop_isolation(false)]
fn comment(t: &mut Token, src: &[char]) -> (r: Result<(), ParseErr>)
    requires
        old(t).idx <= src@.len(),
        src@.len() <= usize::MAX,
        sym_at(src@, old(t).idx as int) == '/',
    ensures
        final(t).idx <= src@.len(),
        final(t).idx > old(t).idx,
        r matches Ok(_) ==> spec_comment(src@, *old(t)) == Ok::<Token, ParseErrV>(*final(t)),
        r matches Err(e) ==> spec_comment(src@, *old(t)) == Err::<Token, ParseErrV>(e.deep_view()),
{
    next_sym(t, src);
    let opening = pos_of(t);
    let ghost t1 = *t;
    let c = sym(t, src);
    if c == '/' {
        while sym(t, src) != '\n' && sym(t, src) != '\u{0}'
            invariant
                t.idx <= src@.len(),
                t.idx >= t1.idx,
                spec_lineskip(src@, t1) == spec_lineskip(src@, *t),
            decreases src@.len() - t.idx,
        {
            let ghost tp = *t;
            next_sym(t, src);
            proof {
                assert(spec_lineskip(src@, tp) == spec_lineskip(src@, *t));
            }
        }
        let ghost tp = *t;
        next_sym(t, src);
        proof {
            assert(spec_lineskip(src@, tp) == *t);
            assert(t.idx > old(t).idx);
        }
        Ok(())
    } else if c == '*' {
        multiline_comment(t, src, opening)
    } else {
        Err(ParseErr::BadComment(pos_of(t)))
    }
}

/// Reads the next token: a string literal, a single separator, or an
/// identifier run, skipping white space and comments.
#[verifier::loop_isolation(false)]
fn accept(t: &mut Token, src: &[char]) -> (r: Result<Vec<char>, ParseErr>)
    requires
        old(t).idx <= src@.len(),
        src@.len() <= usize::MAX,
    ensures
        final(t).idx <= src@.len(),
        final(t).idx >= old(t).idx,
        r matches Ok(xs) ==> xs@.len() >= 1,
        r matches Ok(xs) ==> (final(t).idx > old(t).idx || xs@ =~= seq!['\u{0}']),
        r matches Ok(xs) ==> (xs@[0] == '"' ==> xs@.len() >= 3 && xs@[xs@.len() - 1] == '"'),
        r matches Ok(xs) ==> (xs@.len() >= 2 && xs@[0] != '"' ==> forall|k: int|
            0 <= k < xs@.len() ==> !is_sep_char(#[trigger] xs@[k])),
        r matches Ok(xs) ==> spec_accept(src@, *old(t)) == Ok::<(Seq<char>, Token), ParseErrV>(
            (xs@, *final(t)),
        ),
        r matches Err(e) ==> spec_accept(src@, *old(t)) == Err::<(Seq<char>, Token), ParseErrV>(
            e.deep_view(),
        ),
    decreases src@.len() - old(t).idx,
{
    let c = sym(t, src);
    if c == '/' {
        match comment(t, src) {
            Ok(_) => {},
            Err(e) => {
                return Err(e);
            },
        }
        return accept(t, src);
    }
    if c == '"' {
        return string(t, src);
    }
    if space_char(c) {
        next_sym(t, src);
        return accept(t, src);
    }
    if sep(c) {
        let d = next_sym(t, src);
        let mut s: Vec<char> = Vec::new();
        s.push(d);
        assert(s@ =~= seq![c]);
        return Ok(s);
    }
    let d = next_sym(t, src);
    let mut s: Vec<char> = Vec::new();
    s.push(d);
    let ghost t0 = *t;
    proof {
        assert(s@ =~= seq![c]);
    }
    while !sep(sym(t, src))
        invariant
            t.idx <= src@.len(),
            t.idx > old(t).idx,
            s@.len() >= 1,
            s@[0] == c,
            c != '"',
            forall|k: int| 0 <= k < s@.len() ==> !is_sep_char(#[trigger] s@[k]),
            spec_run(src@, t0, seq![c]) == spec_run(src@, *t, s@),
        decreases src@.len() - t.idx,
    {
        let ghost tp = *t;
        let ghost sp = s@;
        let e = next_sym(t, src);
        s.push(e);
        proof {
            assert(spec_run(src@, tp, sp) == spec_run(src@, *t, s@));
        }
    }
    proof {
        assert(spec_run(src@, *t, s@) == (s@, *t));
    }
    Ok(s)
}

/// Strips the surrounding quotes from a string token.
#[verifier::loop_isolation(false)]
fn unstring(xs: &[char]) -> (r: Vec<char>)
    ensures
        xs@.len() >= 2 ==> r@ == xs@.subrange(1, xs@.len() - 1),
        xs@.len() < 2 ==> r@ == Seq::<char>::empty(),
{
    let mut r: Vec<char> = Vec::new();
    if xs.len() < 2 {
        return r;
    }
    let mut i: usize = 1;
    while i < xs.len() - 1
        invariant
            1 <= i <= xs@.len() - 1,
            xs@.len() >= 2,
            r@ == xs@.subrange(1, i as int),
        decreases xs.len() - i,
    {
        r.push(xs[i]);
        assert(r@ =~= xs@.subrange(1, i as int + 1));
        i = i + 1;
    }
    proof {
        assert(xs@.subrange(1, xs@.len() - 1) =~= r@);
    }
    r
}

/// Demands the trailing `;` of a statement that still lacks one.
fn semicolon(t: &mut Token, src: &[char], xs: &[char]) -> (r: Result<(), ParseErr>)
    requires
        old(t).idx <= src@.len(),
        src@.len() <= usize::MAX,
    ensures
        final(t).idx <= src@.len(),
        final(t).idx >= old(t).idx,
        r matches Ok(_) ==> spec_semicolon(src@, *old(t), xs@) == Ok::<Token, ParseErrV>(
            *final(t),
        ),
        r matches Err(e) ==> spec_semicolon(src@, *old(t), xs@) == Err::<Token, ParseErrV>(
            e.deep_view(),
        ),
{
    if xs.len() == 1 && xs[0] == ';' {
        return Ok(());
    }
    let s = match accept(t, src) {
        Ok(s) => s,
        Err(e) => {
            return Err(e);
        },
    };
    if s.len() == 1 && s[0] == ';' {
        Ok(())
    } else {
        Err(ParseErr::ExpectedSemicolon(pos_of(t), s))
    }
}

} // verus!

verus! {

// ----- lookup support -----

/// A name found by `lookup` in a well-formed program is well formed, and
/// its statement is a well-formed `let`.
proof fn lemma_lookup_wf(s: Seq<AstV>, id: Seq<char>)
    requires
        ast_wf(s),
        spec_lookup(s, id) is Some,
    ensures
        id_wf(id),
        spec_lookup(s, id) matches Some(i) ==> 0 <= i < s.len() && stat_wf(s[i]) && is_let_of(
            s[i],
            id,
        ),
{
    lemma_spec_lookup(s, id);
    let i = spec_lookup(s, id)->Some_0;
    assert(stat_wf(s[i]));
}


// ----- what the grammar builds -----

/// Whether `c` occurs in `xs`.
pub open spec fn contains_char(xs: Seq<char>, c: char) -> bool {
    exists|k: int| 0 <= k < xs.len() && xs[k] == c
}

/// Whether some character of `xs` is reserved.
pub open spec fn spec_has_reserved(xs: Seq<char>) -> bool {
    exists|k: int| 0 <= k < xs.len() && is_reserved_char(#[trigger] xs[k])
}

/// The reserved character the parser reports: the first of the fixed
/// list that occurs in `xs`, as the original tool scanned it.
pub open spec fn first_reserved(xs: Seq<char>) -> char {
    if contains_char(xs, '-') {
        '-'
    } else if contains_char(xs, '+') {
        '+'
    } else if contains_char(xs, '/') {
        '/'
    } else if contains_char(xs, '*') {
        '*'
    } else if contains_char(xs, '>') {
        '>'
    } else if contains_char(xs, '<') {
        '<'
    } else if contains_char(xs, '=') {
        '='
    } else if contains_char(xs, '|') {
        '|'
    } else if contains_char(xs, '&') {
        '&'
    } else if contains_char(xs, '!') {
        '!'
    } else if contains_char(xs, '%') {
        '%'
    } else if contains_char(xs, '(') {
        '('
    } else if contains_char(xs, ')') {
        ')'
    } else if contains_char(xs, '{') {
        '{'
    } else if contains_char(xs, '}') {
        '}'
    } else if contains_char(xs, ',') {
        ','
    } else if contains_char(xs, '.') {
        '.'
    } else if contains_char(xs, ':') {
        ':'
    } else if contains_char(xs, ';') {
        ';'
    } else if contains_char(xs, '#') {
        '#'
    } else if contains_char(xs, '@') {
        '@'
    } else if contains_char(xs, '?') {
        '?'
    } else if contains_char(xs, '\'') {
        '\''
    } else if contains_char(xs, '"') {
        '"'
    } else {
        ' '
    }
}

/// Whether a token is a single separator or only white space.
pub open spec fn spec_sep_str(xs: Seq<char>) -> bool {
    (xs.len() == 1 && is_sep_char(xs[0])) || (forall|k: int|
        0 <= k < xs.len() ==> is_space_char(#[trigger] xs[k]))
}

/// Whether a token has the quoted-string shape.
pub open spec fn spec_is_string(xs: Seq<char>) -> bool {
    xs.len() >= 1 && xs[0] == '"' && xs[xs.len() - 1] == '"'
}

/// One parsed set element: a fresh constant from a quoted token, or the
/// inlining, splicing or placeholder for a bound name.
pub open spec fn spec_asm(s: Seq<char>, t: Token, ast: Seq<AstV>) -> Result<
    (Seq<ConstV>, Token),
    ParseErrV,
> {
    match spec_accept(s, t) {
        Err(e) => Err(e),
        Ok((xs, t2)) => {
            let p = pos_at(t2);
            if spec_is_string(xs) {
                Ok((seq![ConstV::Asm(xs.subrange(1, xs.len() - 1), p, Type::AsmType)], t2))
            } else {
                match spec_lookup(ast, xs) {
                    Some(i) => match ast[i] {
                        AstV::Stat(ExpV::Let(VarV::Var(id, _, ty), rhs)) => if ty
                            == Type::GadgetType {
                            Ok((seq![ConstV::Asm(id, p, Type::GadgetType)], t2))
                        } else if ty == Type::AsmType {
                            match *rhs {
                                ExpV::Constant(c) => match c {
                                    ConstV::Asm(cs, _, _) => Ok(
                                        (seq![ConstV::Asm(cs, p, Type::AsmType)], t2),
                                    ),
                                },
                                _ => Err(ParseErrV::UnexpectedConstruct(p, xs)),
                            }
                        } else {
                            match *rhs {
                                ExpV::Array(a) => Ok((a, t2)),
                                _ => Err(ParseErrV::UnexpectedConstruct(p, xs)),
                            }
                        },
                        _ => Err(ParseErrV::UndefinedRef(p, xs)),
                    },
                    None => Err(ParseErrV::UndefinedRef(p, xs)),
                }
            }
        },
    }
}

/// A parsed element neither shrinks the cursor nor passes the end, and
/// always moves it on success.
proof fn lemma_asm_mono(s: Seq<char>, t: Token, ast: Seq<AstV>)
    requires
        t.idx <= s.len(),
        s.len() <= usize::MAX,
    ensures
        spec_asm(s, t, ast) matches Ok(p) ==> t.idx <= p.1.idx <= s.len(),
{
    lemma_accept_mono(s, t);
}

/// The remaining elements of a set after the first, up to the closer.
pub open spec fn spec_set_loop(
    s: Seq<char>,
    t: Token,
    ast: Seq<AstV>,
    closing: char,
    elems: Seq<ConstV>,
) -> Result<(Seq<ConstV>, Token), ParseErrV>
    decreases s.len() - t.idx,
    when t.idx <= s.len() && s.len() <= usize::MAX
    via spec_set_loop_dec
{
    match spec_accept(s, t) {
        Err(e) => Err(e),
        Ok((xs, t2)) => {
            if xs.len() == 1 && xs[0] == closing {
                if elems.len() == 0 {
                    Err(ParseErrV::EmptySet(pos_at(t2)))
                } else {
                    Ok((elems, t2))
                }
            } else if !(xs.len() == 1 && xs[0] == ',') {
                Err(ParseErrV::UnexpectedSymbol(pos_at(t2), xs))
            } else {
                match spec_asm(s, t2, ast) {
                    Err(e) => Err(e),
                    Ok((es, t3)) => spec_set_loop(s, t3, ast, closing, elems + es),
                }
            }
        },
    }
}

#[via_fn]
proof fn spec_set_loop_dec(s: Seq<char>, t: Token, ast: Seq<AstV>, closing: char, elems: Seq<
    ConstV,
>) {
    if t.idx <= s.len() && s.len() <= usize::MAX {
        lemma_accept_mono(s, t);
        match spec_accept(s, t) {
            Ok((xs, t2)) => {
                lemma_asm_mono(s, t2, ast);
            },
            Err(_) => {},
        }
    }
}

/// The set scan neither shrinks the cursor nor passes the end.
proof fn lemma_set_loop_mono(
    s: Seq<char>,
    t: Token,
    ast: Seq<AstV>,
    closing: char,
    elems: Seq<ConstV>,
)
    requires
        t.idx <= s.len(),
        s.len() <= usize::MAX,
    ensures
        spec_set_loop(s, t, ast, closing, elems) matches Ok(p) ==> t.idx <= p.1.idx <= s.len(),
    decreases s.len() - t.idx,
{
    lemma_accept_mono(s, t);
    match spec_accept(s, t) {
        Ok((xs, t2)) => {
            if !(xs.len() == 1 && xs[0] == closing) && (xs.len() == 1 && xs[0] == ',') {
                lemma_asm_mono(s, t2, ast);
                match spec_asm(s, t2, ast) {
                    Ok((es, t3)) => {
                        lemma_set_loop_mono(s, t3, ast, closing, elems + es);
                    },
                    Err(_) => {},
                }
            }
        },
        Err(_) => {},
    }
}

/// A whole gadget or array body after its opening bracket.
pub open spec fn spec_set(s: Seq<char>, t: Token, ast: Seq<AstV>, closing: char) -> Result<
    (ExpV, Token),
    ParseErrV,
> {
    match spec_asm(s, t, ast) {
        Err(e) => Err(e),
        Ok((es0, t1)) => match spec_set_loop(s, t1, ast, closing, es0) {
            Err(e) => Err(e),
            Ok((elems, t2)) => if closing == ']' {
                Ok((ExpV::Array(elems), t2))
            } else {
                Ok((ExpV::Gadget(elems), t2))
            },
        },
    }
}

/// The set neither shrinks the cursor nor passes the end.
proof fn lemma_set_mono(s: Seq<char>, t: Token, ast: Seq<AstV>, closing: char)
    requires
        t.idx <= s.len(),
        s.len() <= usize::MAX,
    ensures
        spec_set(s, t, ast, closing) matches Ok(p) ==> t.idx <= p.1.idx <= s.len(),
{
    lemma_asm_mono(s, t, ast);
    match spec_asm(s, t, ast) {
        Ok((es0, t1)) => {
            lemma_set_loop_mono(s, t1, ast, closing, es0);
        },
        Err(_) => {},
    }
}

/// A fresh constant from a quoted token.
pub open spec fn spec_const(p: Pos, xs: Seq<char>) -> Result<ExpV, ParseErrV> {
    if spec_is_string(xs) {
        Ok(ExpV::Constant(ConstV::Asm(xs.subrange(1, xs.len() - 1), p, Type::AsmType)))
    } else {
        Err(ParseErrV::ExpectedAsm(p, xs))
    }
}

/// The bound expression a bare right-hand-side name stands for.
pub open spec fn spec_ref(p: Pos, xs: Seq<char>, ast: Seq<AstV>) -> Result<ExpV, ParseErrV> {
    match spec_lookup(ast, xs) {
        Some(i) => match ast[i] {
            AstV::Stat(ExpV::Let(_, rhs)) => Ok(*rhs),
            _ => Err(ParseErrV::UndefinedRef(p, xs)),
        },
        None => Err(ParseErrV::UndefinedRef(p, xs)),
    }
}

/// The call expression a bound name stands for.
pub open spec fn spec_call(p: Pos, xs: Seq<char>, ast: Seq<AstV>) -> Result<ExpV, ParseErrV> {
    match spec_lookup(ast, xs) {
        Some(i) => match ast[i] {
            AstV::Stat(ExpV::Let(VarV::Var(_, _, ty), _)) => Ok(
                ExpV::Call(VarV::Var(xs, p, ty)),
            ),
            _ => Err(ParseErrV::UndefinedCall(p, xs)),
        },
        None => Err(ParseErrV::UndefinedCall(p, xs)),
    }
}

/// A whole `let` binding after its `=`.
pub open spec fn spec_let(s: Seq<char>, t: Token, id: Seq<char>, ast: Seq<AstV>) -> Result<
    (ExpV, Token),
    ParseErrV,
> {
    match spec_accept(s, t) {
        Err(e) => Err(e),
        Ok((xs, t1)) => if xs[0] == '{' {
            match spec_set(s, t1, ast, '}') {
                Err(e) => Err(e),
                Ok((g, t2)) => Ok(
                    (
                        ExpV::Let(
                            VarV::Var(id, pos_at(t2), Type::GadgetType),
                            Box::new(g),
                        ),
                        t2,
                    ),
                ),
            }
        } else if xs[0] == '"' {
            match spec_const(pos_at(t1), xs) {
                Err(e) => Err(e),
                Ok(c) => Ok(
                    ((ExpV::Let(VarV::Var(id, pos_at(t1), Type::AsmType), Box::new(c)), t1)),
                ),
            }
        } else if xs[0] == '[' {
            match spec_set(s, t1, ast, ']') {
                Err(e) => Err(e),
                Ok((a, t2)) => Ok(
                    (
                        ExpV::Let(
                            VarV::Var(id, pos_at(t2), Type::ArrayType),
                            Box::new(a),
                        ),
                        t2,
                    ),
                ),
            }
        } else {
            let ty = spec_get_type(ast, xs);
            if ty == Type::GadgetType {
                match spec_call(pos_at(t1), xs, ast) {
                    Err(e) => Err(e),
                    Ok(c) => Ok(
                        ((ExpV::Let(VarV::Var(id, pos_at(t1), ty), Box::new(c)), t1)),
                    ),
                }
            } else {
                match spec_ref(pos_at(t1), xs, ast) {
                    Err(e) => Err(e),
                    Ok(e2) => Ok(
                        ((ExpV::Let(VarV::Var(id, pos_at(t1), ty), Box::new(e2)), t1)),
                    ),
                }
            }
        },
    }
}

/// The binding neither shrinks the cursor nor passes the end.
proof fn lemma_let_mono(s: Seq<char>, t: Token, id: Seq<char>, ast: Seq<AstV>)
    requires
        t.idx <= s.len(),
        s.len() <= usize::MAX,
    ensures
        spec_let(s, t, id, ast) matches Ok(p) ==> t.idx <= p.1.idx <= s.len(),
{
    lemma_accept_mono(s, t);
    match spec_accept(s, t) {
        Ok((xs, t1)) => {
            lemma_set_mono(s, t1, ast, '}');
            lemma_set_mono(s, t1, ast, ']');
        },
        Err(_) => {},
    }
}

/// A statement that starts with an identifier: a binding or a call.
pub open spec fn spec_ident(s: Seq<char>, t: Token, id: Seq<char>, ast: Seq<AstV>) -> Result<
    (ExpV, Token),
    ParseErrV,
> {
    match spec_accept(s, t) {
        Err(e) => Err(e),
        Ok((ys, t1)) => if ys.len() == 1 && ys[0] == '=' {
            spec_let(s, t1, id, ast)
        } else if ys.len() == 1 && ys[0] == ';' {
            match spec_call(pos_at(t1), id, ast) {
                Err(e) => Err(e),
                Ok(c) => Ok((c, t1)),
            }
        } else {
            Err(ParseErrV::UnexpectedIdent(pos_at(t1), ys))
        },
    }
}

/// One expression from its first token.
pub open spec fn spec_exp(s: Seq<char>, t: Token, xs: Seq<char>, ast: Seq<AstV>) -> Result<
    (ExpV, Token),
    ParseErrV,
> {
    if xs.len() == 1 && xs[0] == '{' {
        spec_set(s, t, ast, '}')
    } else if xs.len() == 1 && xs[0] == ';' {
        Ok((ExpV::Empty, t))
    } else if spec_sep_str(xs) {
        Err(ParseErrV::UnexpectedKeyword(pos_at(t), xs))
    } else if spec_has_reserved(xs) {
        Err(ParseErrV::ReservedSymbol(pos_at(t), first_reserved(xs), xs))
    } else {
        spec_ident(s, t, xs, ast)
    }
}

/// The trailing `;` of a statement that still lacks one.
pub open spec fn spec_semicolon(s: Seq<char>, t: Token, xs: Seq<char>) -> Result<
    Token,
    ParseErrV,
> {
    if xs.len() == 1 && xs[0] == ';' {
        Ok(t)
    } else {
        match spec_accept(s, t) {
            Err(e) => Err(e),
            Ok((s2, t2)) => if s2.len() == 1 && s2[0] == ';' {
                Ok(t2)
            } else {
                Err(ParseErrV::ExpectedSemicolon(pos_at(t2), s2))
            },
        }
    }
}

/// One whole statement: the parsed expression, its required terminator,
/// and the program with the statement appended (a bare `;` adds nothing).
pub open spec fn spec_statement(s: Seq<char>, t: Token, xs: Seq<char>, ast: Seq<AstV>) -> Result<
    (Seq<AstV>, Token),
    ParseErrV,
> {
    match spec_exp(s, t, xs, ast) {
        Err(e) => Err(e),
        Ok((e, t1)) => match e {
            ExpV::Call(_) => Ok((ast.push(AstV::Stat(e)), t1)),
            ExpV::Gadget(_) => Ok((ast.push(AstV::Stat(e)), t1)),
            _ => match spec_semicolon(s, t1, xs) {
                Err(e2) => Err(e2),
                Ok(t2) => if e == ExpV::Empty {
                    Ok((ast, t2))
                } else {
                    Ok((ast.push(AstV::Stat(e)), t2))
                },
            },
        },
    }
}

/// A statement neither shrinks the cursor nor passes the end.
proof fn lemma_statement_mono(s: Seq<char>, t: Token, xs: Seq<char>, ast: Seq<AstV>)
    requires
        t.idx <= s.len(),
        s.len() <= usize::MAX,
    ensures
        spec_statement(s, t, xs, ast) matches Ok(p) ==> t.idx <= p.1.idx <= s.len(),
{
    lemma_set_mono(s, t, ast, '}');
    lemma_accept_mono(s, t);
    match spec_accept(s, t) {
        Ok((ys, t1)) => {
            lemma_let_mono(s, t1, xs, ast);
        },
        Err(_) => {},
    }
    match spec_exp(s, t, xs, ast) {
        Ok((e, t1)) => {
            lemma_accept_mono(s, t1);
        },
        Err(_) => {},
    }
}

/// The whole statement stream from the cursor on.
pub open spec fn spec_block(s: Seq<char>, t: Token, ast: Seq<AstV>) -> Result<
    (Seq<AstV>, Token),
    ParseErrV,
>
    decreases s.len() - t.idx,
    when t.idx <= s.len() && s.len() <= usize::MAX
    via spec_block_dec
{
    match spec_accept(s, t) {
        Err(e) => Err(e),
        Ok((xs, t1)) => if xs.len() == 1 && xs[0] == '\u{0}' {
            Ok((ast, t1))
        } else {
            match spec_statement(s, t1, xs, ast) {
                Err(e) => Err(e),
                Ok((ast2, t2)) => spec_block(s, t2, ast2),
            }
        },
    }
}

#[via_fn]
proof fn spec_block_dec(s: Seq<char>, t: Token, ast: Seq<AstV>) {
    if t.idx <= s.len() && s.len() <= usize::MAX {
        lemma_accept_mono(s, t);
        match spec_accept(s, t) {
            Ok((xs, t1)) => {
                lemma_statement_mono(s, t1, xs, ast);
                if !(xs.len() == 1 && xs[0] == '\u{0}') {
                    assert(!(xs =~= seq!['\u{0}']));
                }
            },
            Err(_) => {},
        }
    }
}

/// The typed AST of a whole source text, or its first error: the
/// grammar of the gadget language, statement by statement.
pub open spec fn spec_parse(s: Seq<char>) -> Result<Seq<AstV>, ParseErrV> {
    match spec_block(s, Token { line: 1, col: 1, idx: 0 }, Seq::empty()) {
        Ok(p) => Ok(p.0),
        Err(e) => Err(e),
    }
}

// ----- the grammar -----

/// Reads one set element: a fresh quoted constant, or a reference to an
/// earlier binding that is inlined, spliced or kept as a placeholder.
#[verifier::loop_isolation(false)]
fn asm_(t: &mut Token, src: &[char], arr: &mut Vec<Const>, ast: &[AST]) -> (r: Result<
    (),
    ParseErr,
>)
    requires
        old(t).idx <= src@.len(),
        src@.len() <= usize::MAX,
        ast_wf(ast.deep_view()),
        forall|i: int| 0 <= i < old(arr)@.len() ==> elem_wf(#[trigger] old(arr)@[i].deep_view()),
    ensures
        final(t).idx <= src@.len(),
        final(t).idx >= old(t).idx,
        forall|i: int| 0 <= i < final(arr)@.len() ==> elem_wf(#[trigger] final(arr)@[i].deep_view()),
        r is Ok ==> final(arr)@.len() > old(arr)@.len(),
        r is Ok ==> final(t).idx > old(t).idx,
        r matches Ok(_) ==> (spec_asm(src@, *old(t), ast.deep_view()) matches Ok(p)
            && final(arr).deep_view() == old(arr).deep_view() + p.0 && p.1 == *final(t)),
        r matches Err(e) ==> spec_asm(src@, *old(t), ast.deep_view()) == Err::<
            (Seq<ConstV>, Token),
            ParseErrV,
        >(e.deep_view()),
{
    let ghost arr0 = arr.deep_view();
    let ghost astv = ast.deep_view();
    let xs = match accept(t, src) {
        Ok(xs) => xs,
        Err(e) => {
            return Err(e);
        },
    };
    if is_string(xs.as_slice()) {
        let inner = unstring(xs.as_slice());
        let c = Const::Asm(inner, pos_of(t), Type::AsmType);
        proof {
            assert(elem_wf(c.deep_view()));
        }
        let ghost cv = c.deep_view();
        arr.push(c);
        proof {
            assert(arr.deep_view() =~= arr0 + seq![cv]);
        }
        return Ok(());
    }
    match lookup(xs.as_slice(), ast) {
        Some(AST::Stat(Exp::Let(Variable::Var(id, _, ty), e))) => {
            proof {
                lemma_lookup_wf(astv, xs@);
                assert(!(xs@ =~= seq!['\u{0}'])) by {
                    if xs@ =~= seq!['\u{0}'] {
                        assert(is_sep_char(xs@[0]));
                    }
                }
            }
            proof {
                reveal_with_fuel(exp_view, 3);
                lemma_spec_lookup(astv, xs@);
            }
            match *ty {
                Type::GadgetType => {
                    proof {
                        assert(id@ == xs@);
                    }
                    let c = Const::Asm(copy_chars(id.as_slice()), pos_of(t), Type::GadgetType);
                    proof {
                        assert(elem_wf(c.deep_view()));
                    }
                    let ghost cv = c.deep_view();
                    arr.push(c);
                    proof {
                        assert(arr.deep_view() =~= arr0 + seq![cv]);
                    }
                    Ok(())
                },
                Type::AsmType => {
                    match &**e {
                        Exp::Constant(Const::Asm(s, _, _)) => {
                            proof {
                                let j = spec_lookup(astv, xs@)->Some_0;
                                assert(stat_wf(astv[j]));
                                assert(s@.len() > 0);
                            }
                            let c = Const::Asm(copy_chars(s.as_slice()), pos_of(t), Type::AsmType);
                            proof {
                                assert(elem_wf(c.deep_view()));
                            }
                            let ghost cv = c.deep_view();
                            arr.push(c);
                            proof {
                                assert(arr.deep_view() =~= arr0 + seq![cv]);
                            }
                            Ok(())
                        },
                        _ => Err(ParseErr::UnexpectedConstruct(pos_of(t), xs)),
                    }
                },
                _ => {
                    match &**e {
                        Exp::Array(a) => {
                            proof {
                                let j = spec_lookup(astv, xs@)->Some_0;
                                assert(stat_wf(astv[j]));
                                assert(set_wf(a.deep_view()));
                            }
                            proof {
                                assert forall|k: int|
                                    0 <= k < a@.len() implies elem_wf(
                                    #[trigger] a@[k].deep_view(),
                                ) by {
                                    assert(a@[k].deep_view() == a.deep_view()[k]);
                                }
                            }
                            let ghost n0 = arr@.len();
                            proof {
                                assert(n0 == arr0.len());
                            }
                            let mut i: usize = 0;
                            while i < a.len()
                                invariant
                                    i <= a@.len(),
                                    a@.len() > 0,
                                    forall|k: int|
                                        0 <= k < a@.len() ==> elem_wf(
                                            #[trigger] a@[k].deep_view(),
                                        ),
                                    arr@.len() == n0 + i,
                                    forall|k: int|
                                        0 <= k < n0 ==> arr@[k].deep_view() == arr0[k],
                                    forall|k: int|
                                        0 <= k < i ==> arr@[n0 + k].deep_view() == a@[
                                            k
                                        ].deep_view(),
                                    forall|k: int|
                                        0 <= k < arr@.len() ==> elem_wf(
                                            #[trigger] arr@[k].deep_view(),
                                        ),
                                decreases a.len() - i,
                            {
                                let c = copy_const(&a[i]);
                                proof {
                                    assert(elem_wf(c.deep_view()));
                                }
                                arr.push(c);
                                i = i + 1;
                            }
                            proof {
                                assert(arr.deep_view() =~= arr0 + a.deep_view());
                            }
                            Ok(())
                        },
                        _ => Err(ParseErr::UnexpectedConstruct(pos_of(t), xs)),
                    }
                },
            }
        },
        _ => Err(ParseErr::UndefinedRef(pos_of(t), xs)),
    }
}

/// Reads the elements of a gadget or array up to its closing bracket.
#[verifier::loop_isolation(false)]
fn set(t: &mut Token, src: &[char], ast: &[AST], closing: char) -> (r: Result<Exp, ParseErr>)
    requires
        old(t).idx <= src@.len(),
        src@.len() <= usize::MAX,
        ast_wf(ast.deep_view()),
        closing == '}' || closing == ']',
    ensures
        final(t).idx <= src@.len(),
        final(t).idx >= old(t).idx,
        r matches Ok(e) ==> (closing == '}' ==> (e.deep_view() matches ExpV::Gadget(g)
            && set_wf(g))),
        r matches Ok(e) ==> (closing == ']' ==> (e.deep_view() matches ExpV::Array(a) && set_wf(
        a))),
        r matches Ok(e) ==> (spec_set(src@, *old(t), ast.deep_view(), closing) matches Ok(p)
            && p.0 == e.deep_view() && p.1 == *final(t)),
        r matches Err(e) ==> spec_set(src@, *old(t), ast.deep_view(), closing) == Err::<
            (ExpV, Token),
            ParseErrV,
        >(e.deep_view()),
{
    let ghost astv = ast.deep_view();
    let mut arr: Vec<Const> = Vec::new();
    proof {
        assert(arr.deep_view() =~= Seq::<ConstV>::empty());
    }
    match asm_(t, src, &mut arr, ast) {
        Ok(_) => {},
        Err(e) => {
            return Err(e);
        },
    }
    proof {
        assert(Seq::<ConstV>::empty() + spec_asm(src@, *old(t), astv)->Ok_0.0 =~= arr.deep_view());
    }
    let ghost t1g = *t;
    let ghost es0 = arr.deep_view();
    loop
        invariant
            t.idx <= src@.len(),
            t.idx >= old(t).idx,
            arr@.len() > 0,
            forall|i: int| 0 <= i < arr@.len() ==> elem_wf(#[trigger] arr@[i].deep_view()),
            spec_set_loop(src@, t1g, astv, closing, es0) == spec_set_loop(
                src@,
                *t,
                astv,
                closing,
                arr.deep_view(),
            ),
        decreases src@.len() - t.idx,
    {
        let ghost tp = *t;
        let ghost ap = arr.deep_view();
        let xs = match accept(t, src) {
            Ok(xs) => xs,
            Err(e) => {
                return Err(e);
            },
        };
        if xs.len() == 1 && xs[0] == closing {
            proof {
                assert(spec_set_loop(src@, tp, astv, closing, ap) == Ok::<
                    (Seq<ConstV>, Token),
                    ParseErrV,
                >((arr.deep_view(), *t)));
                assert forall|i: int| 0 <= i < arr.deep_view().len() implies elem_wf(
                    #[trigger] arr.deep_view()[i],
                ) by {
                    assert(arr.deep_view()[i] == arr@[i].deep_view());
                }
                assert(set_wf(arr.deep_view()));
            }
            if closing == ']' {
                return Ok(Exp::Array(arr));
            } else {
                return Ok(Exp::Gadget(arr));
            }
        }
        if !(xs.len() == 1 && xs[0] == ',') {
            return Err(ParseErr::UnexpectedSymbol(pos_of(t), xs));
        }
        match asm_(t, src, &mut arr, ast) {
            Ok(_) => {},
            Err(e) => {
                return Err(e);
            },
        }
        proof {
            assert(spec_set_loop(src@, tp, astv, closing, ap) == spec_set_loop(
                src@,
                *t,
                astv,
                closing,
                arr.deep_view(),
            ));
        }
    }
}

/// Reads a gadget body after its opening `{`.
fn gadget(t: &mut Token, src: &[char], ast: &[AST]) -> (r: Result<Exp, ParseErr>)
    requires
        old(t).idx <= src@.len(),
        src@.len() <= usize::MAX,
        ast_wf(ast.deep_view()),
    ensures
        final(t).idx <= src@.len(),
        final(t).idx >= old(t).idx,
        r matches Ok(e) ==> e.deep_view() matches ExpV::Gadget(g) && set_wf(g),
        r matches Ok(e) ==> (spec_set(src@, *old(t), ast.deep_view(), '}') matches Ok(p) && p.0
            == e.deep_view() && p.1 == *final(t)),
        r matches Err(e) ==> spec_set(src@, *old(t), ast.deep_view(), '}') == Err::<
            (ExpV, Token),
            ParseErrV,
        >(e.deep_view()),
{
    set(t, src, ast, '}')
}

/// Reads an array body after its opening `[`.
fn array(t: &mut Token, src: &[char], ast: &[AST]) -> (r: Result<Exp, ParseErr>)
    requires
        old(t).idx <= src@.len(),
        src@.len() <= usize::MAX,
        ast_wf(ast.deep_view()),
    ensures
        final(t).idx <= src@.len(),
        final(t).idx >= old(t).idx,
        r matches Ok(e) ==> e.deep_view() matches ExpV::Array(a) && set_wf(a),
        r matches Ok(e) ==> (spec_set(src@, *old(t), ast.deep_view(), ']') matches Ok(p) && p.0
            == e.deep_view() && p.1 == *final(t)),
        r matches Err(e) ==> spec_set(src@, *old(t), ast.deep_view(), ']') == Err::<
            (ExpV, Token),
            ParseErrV,
        >(e.deep_view()),
{
    set(t, src, ast, ']')
}

/// Turns a quoted token into a fresh constant.
fn const_(t: &Token, xs: Vec<char>) -> (r: Result<Exp, ParseErr>)
    requires
        xs@.len() >= 1,
        xs@[0] == '"' ==> xs@.len() >= 3 && xs@[xs@.len() - 1] == '"',
    ensures
        r matches Ok(e) ==> e.deep_view() matches ExpV::Constant(c) && (c matches ConstV::Asm(
            s,
            _,
            ty,
        ) && s.len() > 0 && ty == Type::AsmType),
        r matches Ok(e) ==> spec_const(pos_at(*t), xs@) == Ok::<ExpV, ParseErrV>(e.deep_view()),
        r matches Err(e) ==> spec_const(pos_at(*t), xs@) == Err::<ExpV, ParseErrV>(e.deep_view()),
{
    if is_string(xs.as_slice()) {
        let inner = unstring(xs.as_slice());
        Ok(Exp::Constant(Const::Asm(inner, Pos::Pos(t.line, t.col), Type::AsmType)))
    } else {
        Err(ParseErr::ExpectedAsm(Pos::Pos(t.line, t.col), xs))
    }
}

/// Clones the expression bound to `id` for reuse as a right-hand side.
fn ref_(t: &Token, id: Vec<char>, ast: &[AST]) -> (r: Result<Exp, ParseErr>)
    requires
        ast_wf(ast.deep_view()),
    ensures
        r matches Ok(e) ==> spec_lookup(ast.deep_view(), id@) matches Some(i) && (
        ast.deep_view()[i] matches AstV::Stat(ExpV::Let(_, rhs)) && e.deep_view() == *rhs),
        r matches Ok(e) ==> spec_ref(pos_at(*t), id@, ast.deep_view()) == Ok::<ExpV, ParseErrV>(
            e.deep_view(),
        ),
        r matches Err(e) ==> spec_ref(pos_at(*t), id@, ast.deep_view()) == Err::<ExpV, ParseErrV>(
            e.deep_view(),
        ),
{
    let ghost astv = ast.deep_view();
    proof {
        reveal_with_fuel(exp_view, 3);
    }
    match lookup(id.as_slice(), ast) {
        Some(AST::Stat(Exp::Let(_, e))) => Ok(copy_exp(&**e)),
        _ => Err(ParseErr::UndefinedRef(Pos::Pos(t.line, t.col), id)),
    }
}

/// Turns a bound gadget name into a call expression.
fn call(t: &Token, id: Vec<char>, ast: &[AST]) -> (r: Result<Exp, ParseErr>)
    requires
        ast_wf(ast.deep_view()),
    ensures
        r matches Ok(e) ==> e.deep_view() matches ExpV::Call(v) && (v matches VarV::Var(n, _, ty)
            && n == id@ && id_wf(n) && ty == spec_get_type(ast.deep_view(), id@)),
        r matches Ok(e) ==> spec_call(pos_at(*t), id@, ast.deep_view()) == Ok::<ExpV, ParseErrV>(
            e.deep_view(),
        ),
        r matches Err(e) ==> spec_call(pos_at(*t), id@, ast.deep_view()) == Err::<
            ExpV,
            ParseErrV,
        >(e.deep_view()),
{
    let ghost astv = ast.deep_view();
    proof {
        reveal_with_fuel(exp_view, 3);
    }
    match lookup(id.as_slice(), ast) {
        Some(AST::Stat(Exp::Let(Variable::Var(_, _, ty), _))) => {
            proof {
                lemma_lookup_wf(astv, id@);
            }
            Ok(Exp::Call(Variable::Var(id, Pos::Pos(t.line, t.col), *ty)))
        },
        _ => Err(ParseErr::UndefinedCall(Pos::Pos(t.line, t.col), id)),
    }
}

/// Reads the right-hand side of a `let` and builds the binding.
fn let_(t: &mut Token, src: &[char], id: Vec<char>, ast: &[AST]) -> (r: Result<Exp, ParseErr>)
    requires
        old(t).idx <= src@.len(),
        src@.len() <= usize::MAX,
        ast_wf(ast.deep_view()),
        id_wf(id@),
    ensures
        final(t).idx <= src@.len(),
        final(t).idx >= old(t).idx,
        r matches Ok(e) ==> stat_wf(AstV::Stat(e.deep_view())) && e.deep_view() matches ExpV::Let(
            _,
            _,
        ),
        r matches Ok(e) ==> (spec_let(src@, *old(t), id@, ast.deep_view()) matches Ok(p) && p.0
            == e.deep_view() && p.1 == *final(t)),
        r matches Err(err) ==> spec_let(src@, *old(t), id@, ast.deep_view()) == Err::<
            (ExpV, Token),
            ParseErrV,
        >(err.deep_view()),
{
    let ghost astv = ast.deep_view();
    proof {
        reveal_with_fuel(exp_view, 3);
    }
    let xs = match accept(t, src) {
        Ok(xs) => xs,
        Err(e) => {
            return Err(e);
        },
    };
    let first = xs[0];
    if first == '{' {
        let g = match gadget(t, src, ast) {
            Ok(g) => g,
            Err(e) => {
                return Err(e);
            },
        };
        Ok(Exp::Let(Variable::Var(id, Pos::Pos(t.line, t.col), Type::GadgetType), Box::new(g)))
    } else if first == '"' {
        let c = match const_(t, xs) {
            Ok(c) => c,
            Err(e) => {
                return Err(e);
            },
        };
        Ok(Exp::Let(Variable::Var(id, Pos::Pos(t.line, t.col), Type::AsmType), Box::new(c)))
    } else if first == '[' {
        let a = match array(t, src, ast) {
            Ok(a) => a,
            Err(e) => {
                return Err(e);
            },
        };
        Ok(Exp::Let(Variable::Var(id, Pos::Pos(t.line, t.col), Type::ArrayType), Box::new(a)))
    } else {
        let ty = get_type(xs.as_slice(), ast);
        proof {
            if spec_lookup(astv, xs@) is Some {
                lemma_lookup_wf(astv, xs@);
            }
        }
        match ty {
            Type::GadgetType => {
                let c = match call(t, xs, ast) {
                    Ok(c) => c,
                    Err(e) => {
                        return Err(e);
                    },
                };
                Ok(Exp::Let(Variable::Var(id, Pos::Pos(t.line, t.col), ty), Box::new(c)))
            },
            _ => {
                let e = match ref_(t, xs, ast) {
                    Ok(e) => e,
                    Err(e) => {
                        return Err(e);
                    },
                };
                Ok(Exp::Let(Variable::Var(id, Pos::Pos(t.line, t.col), ty), Box::new(e)))
            },
        }
    }
}

} // verus!

verus! {

/// Dispatches on the token after an identifier: `=` binds, `;` calls.
fn ident(t: &mut Token, src: &[char], id: Vec<char>, ast: &[AST]) -> (r: Result<Exp, ParseErr>)
    requires
        old(t).idx <= src@.len(),
        src@.len() <= usize::MAX,
        ast_wf(ast.deep_view()),
        id_wf(id@),
    ensures
        final(t).idx <= src@.len(),
        final(t).idx >= old(t).idx,
        r matches Ok(e) ==> stat_wf(AstV::Stat(e.deep_view())),
        r matches Ok(e) ==> (e.deep_view() matches ExpV::Let(_, _) || e.deep_view()
            matches ExpV::Call(_)),
        r matches Ok(e) ==> (spec_ident(src@, *old(t), id@, ast.deep_view()) matches Ok(p) && p.0
            == e.deep_view() && p.1 == *final(t)),
        r matches Err(e) ==> spec_ident(src@, *old(t), id@, ast.deep_view()) == Err::<
            (ExpV, Token),
            ParseErrV,
        >(e.deep_view()),
{
    let ys = match accept(t, src) {
        Ok(ys) => ys,
        Err(e) => {
            return Err(e);
        },
    };
    if ys.len() == 1 && ys[0] == '=' {
        let_(t, src, id, ast)
    } else if ys.len() == 1 && ys[0] == ';' {
        call(t, id, ast)
    } else {
        Err(ParseErr::UnexpectedIdent(Pos::Pos(t.line, t.col), ys))
    }
}

/// Parses one expression from its first token.
fn exp(t: &mut Token, src: &[char], xs: Vec<char>, ast: &[AST]) -> (r: Result<Exp, ParseErr>)
    requires
        old(t).idx <= src@.len(),
        src@.len() <= usize::MAX,
        ast_wf(ast.deep_view()),
        xs@.len() >= 1,
        xs@.len() >= 2 && xs@[0] != '"' ==> forall|k: int|
            0 <= k < xs@.len() ==> !is_sep_char(#[trigger] xs@[k]),
    ensures
        final(t).idx <= src@.len(),
        final(t).idx >= old(t).idx,
        r matches Ok(e) ==> (e.deep_view() == ExpV::Empty || stat_wf(AstV::Stat(e.deep_view()))),
        r matches Ok(e) ==> (spec_exp(src@, *old(t), xs@, ast.deep_view()) matches Ok(p) && p.0
            == e.deep_view() && p.1 == *final(t)),
        r matches Err(e) ==> spec_exp(src@, *old(t), xs@, ast.deep_view()) == Err::<
            (ExpV, Token),
            ParseErrV,
        >(e.deep_view()),
{
    if xs.len() == 1 && xs[0] == '{' {
        gadget(t, src, ast)
    } else if xs.len() == 1 && xs[0] == ';' {
        Ok(Exp::Empty)
    } else if sep_str(xs.as_slice()) {
        Err(ParseErr::UnexpectedKeyword(Pos::Pos(t.line, t.col), xs))
    } else {
        let (sy, is_sym) = reserved(xs.as_slice());
        if is_sym {
            Err(ParseErr::ReservedSymbol(Pos::Pos(t.line, t.col), sy, xs))
        } else {
            proof {
                if xs@.len() == 1 {
                    assert(!is_sep_char(xs@[0]));
                }
                assert forall|k: int| 0 <= k < xs@.len() implies !is_reserved_char(
                    #[trigger] xs@[k],
                ) by {}
                assert(id_wf(xs@));
            }
            ident(t, src, xs, ast)
        }
    }
}

/// Parses one statement and appends it to the program.
fn statement(t: &mut Token, src: &[char], xs: Vec<char>, ast: &mut Vec<AST>) -> (r: Result<
    (),
    ParseErr,
>)
    requires
        old(t).idx <= src@.len(),
        src@.len() <= usize::MAX,
        ast_wf(old(ast).deep_view()),
        xs@.len() >= 1,
        xs@.len() >= 2 && xs@[0] != '"' ==> forall|k: int|
            0 <= k < xs@.len() ==> !is_sep_char(#[trigger] xs@[k]),
    ensures
        final(t).idx <= src@.len(),
        final(t).idx >= old(t).idx,
        ast_wf(final(ast).deep_view()),
        r matches Ok(_) ==> (spec_statement(src@, *old(t), xs@, old(ast).deep_view()) matches Ok(
            p,
        ) && p.0 == final(ast).deep_view() && p.1 == *final(t)),
        r matches Err(e) ==> spec_statement(src@, *old(t), xs@, old(ast).deep_view()) == Err::<
            (Seq<AstV>, Token),
            ParseErrV,
        >(e.deep_view()),
{
    let xs2 = copy_chars(xs.as_slice());
    let e = match exp(t, src, xs, ast.as_slice()) {
        Ok(e) => e,
        Err(err) => {
            return Err(err);
        },
    };
    match &e {
        Exp::Call(_) => {},
        Exp::Gadget(_) => {},
        _ => {
            match semicolon(t, src, xs2.as_slice()) {
                Ok(_) => {},
                Err(err) => {
                    return Err(err);
                },
            }
        },
    }
    let ghost astv0 = ast.deep_view();
    match e {
        Exp::Empty => Ok(()),
        other => {
            proof {
                assert(other.deep_view() != ExpV::Empty);
                assert(stat_wf(AstV::Stat(other.deep_view())));
            }
            let ghost ov = other.deep_view();
            ast.push(AST::Stat(other));
            proof {
                assert(ast.deep_view() =~= astv0.push(AstV::Stat(ov)));
                assert forall|i: int| 0 <= i < ast.deep_view().len() implies stat_wf(
                    #[trigger] ast.deep_view()[i],
                ) by {
                    if i < astv0.len() {
                        assert(ast.deep_view()[i] == astv0[i]);
                    }
                }
            }
            Ok(())
        },
    }
}

/// Parses the whole statement stream.
#[verifier::loop_isolation(false)]
fn block(t: &mut Token, src: &[char], ast: &mut Vec<AST>) -> (r: Result<(), ParseErr>)
    requires
        old(t).idx <= src@.len(),
        src@.len() <= usize::MAX,
        ast_wf(old(ast).deep_view()),
    ensures
        final(t).idx <= src@.len(),
        ast_wf(final(ast).deep_view()),
        r matches Ok(_) ==> (spec_block(src@, *old(t), old(ast).deep_view()) matches Ok(p) && p.0
            == final(ast).deep_view() && p.1 == *final(t)),
        r matches Err(e) ==> spec_block(src@, *old(t), old(ast).deep_view()) == Err::<
            (Seq<AstV>, Token),
            ParseErrV,
        >(e.deep_view()),
{
    loop
        invariant
            t.idx <= src@.len(),
            ast_wf(ast.deep_view()),
            spec_block(src@, *old(t), old(ast).deep_view()) == spec_block(
                src@,
                *t,
                ast.deep_view(),
            ),
        decreases src@.len() - t.idx,
    {
        let ghost tp = *t;
        let ghost ap = ast.deep_view();
        let xs = match accept(t, src) {
            Ok(xs) => xs,
            Err(e) => {
                return Err(e);
            },
        };
        if xs.len() == 1 && xs[0] == '\u{0}' {
            proof {
                assert(spec_block(src@, tp, ap) == Ok::<(Seq<AstV>, Token), ParseErrV>(
                    (ast.deep_view(), *t),
                ));
            }
            return Ok(());
        }
        proof {
            assert(!(xs@ =~= seq!['\u{0}']));
        }
        match statement(t, src, xs, ast) {
            Ok(_) => {},
            Err(e) => {
                return Err(e);
            },
        }
        proof {
            assert(spec_block(src@, tp, ap) == spec_block(src@, *t, ast.deep_view()));
        }
    }
}

/// Parses a whole source text into its typed AST.
pub fn parser(src: &[char]) -> (r: Result<Vec<AST>, ParseErr>)
    ensures
        r matches Ok(ast) ==> ast_wf(ast.deep_view()),
        r matches Ok(ast) ==> spec_parse(src@) == Ok::<Seq<AstV>, ParseErrV>(ast.deep_view()),
        r matches Err(e) ==> spec_parse(src@) == Err::<Seq<AstV>, ParseErrV>(e.deep_view()),
{
    let mut ast: Vec<AST> = Vec::new();
    let mut t = Token { line: 1, col: 1, idx: 0 };
    let _n = src.len();
    proof {
        assert(src@.len() == _n as int);
        assert(ast.deep_view() =~= Seq::<AstV>::empty());
    }
    match block(&mut t, src, &mut ast) {
        Ok(_) => Ok(ast),
        Err(e) => Err(e),
    }
}

// ----- how parsing and type checking relate -----

/// Whether one statement keeps all its set elements plain assembly.
pub open spec fn stat_elements_asm(st: AstV) -> bool {
    match st {
        AstV::Stat(e) => match e {
            ExpV::Gadget(g) => consts_all_asm(g),
            ExpV::Let(_, rhs) => match *rhs {
                ExpV::Gadget(g) => consts_all_asm(g),
                ExpV::Array(a) => consts_all_asm(a),
                _ => true,
            },
            _ => true,
        },
    }
}

/// Whether every gadget and array element of the program is plain assembly.
pub open spec fn elements_asm(s: Seq<AstV>) -> bool {
    forall|i: int| 0 <= i < s.len() ==> stat_elements_asm(#[trigger] s[i])
}

/// Whether every top-level call of the program targets a gadget binding.
pub open spec fn calls_gadget(s: Seq<AstV>) -> bool {
    forall|i: int|
        0 <= i < s.len() ==> (#[trigger] s[i] matches AstV::Stat(ExpV::Call(VarV::Var(_, _, ty)))
            ==> ty == Type::GadgetType)
}

/// LAW: a program the parser produced passes the type checker exactly
/// when every gadget and array element is a plain assembly constant and
/// every top-level call targets a gadget binding; every `let` the parser
/// builds already matches its declared type.
pub proof fn lemma_parsed_well_typed(s: Seq<AstV>)
    requires
        ast_wf(s),
    ensures
        ast_well_typed(s) <==> (elements_asm(s) && calls_gadget(s)),
{
    if elements_asm(s) && calls_gadget(s) {
        assert forall|i: int| 0 <= i < s.len() implies stat_well_typed(#[trigger] s[i]) by {
            assert(stat_wf(s[i]));
            assert(stat_elements_asm(s[i]));
        }
    }
    if ast_well_typed(s) {
        assert forall|i: int| 0 <= i < s.len() implies stat_elements_asm(#[trigger] s[i]) by {
            assert(stat_well_typed(s[i]));
            assert(stat_wf(s[i]));
        }
        assert forall|i: int|
            0 <= i < s.len() implies (#[trigger] s[i] matches AstV::Stat(
            ExpV::Call(VarV::Var(_, _, ty)),
        ) ==> ty == Type::GadgetType) by {
            assert(stat_well_typed(s[i]));
        }
    }
}

} // verus!
