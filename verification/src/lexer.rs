//! Standalone lexical analysis: the source text becomes a sequence of
//! tokens, each carrying its line and column.

use vstd::prelude::*;

verus! {

/// A source position: line and column, both 1-indexed.
#[derive(Clone, Copy, Debug, PartialEq, Eq, Structural)]
pub enum Pos {
    Pos(usize, usize),
}

/// One lexed token.
#[derive(Clone, Copy, Debug, PartialEq, Eq, Structural)]
pub enum Token {
    BlockStart(Pos),
    BlockEnd(Pos),
    Comma(Pos),
    CommentStart(Pos),
    CommentEnd(Pos),
    CommentLine(Pos),
    EqualTok(Pos),
    Identifier(Pos, char),
    StringStart(Pos),
    StringEnd(Pos),
    Semicolon(Pos),
    AssemblyTok(Pos, char),
    Whitespace(Pos),
}

/// A lexical error.
#[derive(Clone, Copy, Debug, PartialEq, Eq, Structural)]
pub enum LexErr {
    /// The source text is empty.
    EmptyFile,
    /// A string escape `\` stands at the very end of the text.
    DanglingEscape(Pos),
    /// A character no token can start with.
    UnexpectedChar(Pos, char),
}

/// Whether `c` has the Unicode white-space property.
pub open spec fn is_space_char(c: char) -> bool {
    let u = c as u32;
    u == 9 || u == 10 || u == 11 || u == 12 || u == 13 || u == 32 || u == 0x85 || u == 0xA0
        || u == 0x1680 || (0x2000 <= u && u <= 0x200A) || u == 0x2028 || u == 0x2029 || u == 0x202F
        || u == 0x205F || u == 0x3000
}

/// Whether `c` may stand in an identifier token.
pub open spec fn is_ident_char(c: char) -> bool {
    let u = c as u32;
    (48 <= u && u <= 57) || (65 <= u && u <= 90) || (97 <= u && u <= 122)
}

/// Executable form of `is_space_char`.
pub fn space_char(c: char) -> (r: bool)
    ensures
        r == is_space_char(c),
{
    let u = c as u32;
    u == 9 || u == 10 || u == 11 || u == 12 || u == 13 || u == 32 || u == 0x85 || u == 0xA0
        || u == 0x1680 || (0x2000 <= u && u <= 0x200A) || u == 0x2028 || u == 0x2029 || u == 0x202F
        || u == 0x205F || u == 0x3000
}

/// Executable form of `is_ident_char`.
pub fn ident_char(c: char) -> (r: bool)
    ensures
        r == is_ident_char(c),
{
    let u = c as u32;
    (48 <= u && u <= 57) || (65 <= u && u <= 90) || (97 <= u && u <= 122)
}

/// The token one character outside a string literal starts, if any.
pub open spec fn tok_of(p: Pos, c: char) -> Option<Token> {
    if is_ident_char(c) {
        Some(Token::Identifier(p, c))
    } else if c == '{' {
        Some(Token::BlockStart(p))
    } else if c == '}' {
        Some(Token::BlockEnd(p))
    } else if c == ',' {
        Some(Token::Comma(p))
    } else if c == ';' {
        Some(Token::Semicolon(p))
    } else if c == '=' {
        Some(Token::EqualTok(p))
    } else if c == '"' {
        Some(Token::StringStart(p))
    } else if is_space_char(c) {
        Some(Token::Whitespace(p))
    } else {
        None
    }
}

/// Prepends a token to the tokens of an intermediate result.
pub open spec fn lex_cons(t: Token, r: Result<Seq<Token>, LexErr>) -> Result<
    Seq<Token>,
    LexErr,
> {
    match r {
        Ok(ts) => Ok(seq![t] + ts),
        Err(e) => Err(e),
    }
}

/// Prepends two tokens to the tokens of an intermediate result.
pub open spec fn lex_cons2(t1: Token, t2: Token, r: Result<Seq<Token>, LexErr>) -> Result<
    Seq<Token>,
    LexErr,
> {
    match r {
        Ok(ts) => Ok(Seq::empty().push(t1).push(t2) + ts),
        Err(e) => Err(e),
    }
}

/// Joins an already-emitted prefix with the outcome of the remaining lex.
pub open spec fn lex_join(pre: Seq<Token>, r: Result<Seq<Token>, LexErr>) -> Result<
    Seq<Token>,
    LexErr,
> {
    match r {
        Ok(ts) => Ok(pre + ts),
        Err(e) => Err(e),
    }
}

/// The line count after reading `c`.
pub open spec fn next_line(line: int, c: char) -> int {
    if c == '\n' {
        line + 1
    } else {
        line
    }
}

/// The column count after reading `c`.
pub open spec fn next_col(col: int, c: char) -> int {
    if c == '\n' {
        1
    } else {
        col + 1
    }
}

/// The tokens of `s` from index `i` on, with the running line and column
/// counts and whether the scan stands inside a string literal.
pub open spec fn spec_lex_at(
    s: Seq<char>,
    i: int,
    line: int,
    col: int,
    in_asm: bool,
) -> Result<Seq<Token>, LexErr>
    decreases s.len() - i,
{
    if i >= s.len() {
        Ok(Seq::empty())
    } else {
        let c = s[i];
        let l = next_line(line, c);
        let k = next_col(col, c);
        let p = Pos::Pos(l as usize, k as usize);
        if in_asm {
            if c == '\\' {
                if i + 1 < s.len() {
                    lex_cons2(
                        Token::AssemblyTok(p, c),
                        Token::AssemblyTok(p, s[i + 1]),
                        spec_lex_at(s, i + 2, l, k, true),
                    )
                } else {
                    Err(LexErr::DanglingEscape(p))
                }
            } else if c == '"' {
                lex_cons(Token::StringEnd(p), spec_lex_at(s, i + 1, l, k, false))
            } else {
                lex_cons(Token::AssemblyTok(p, c), spec_lex_at(s, i + 1, l, k, true))
            }
        } else {
            match tok_of(p, c) {
                Some(t) => lex_cons(t, spec_lex_at(s, i + 1, l, k, c == '"')),
                None => Err(LexErr::UnexpectedChar(p, c)),
            }
        }
    }
}

/// The token sequence of the whole source text, or its lexical error.
pub open spec fn spec_lexer(s: Seq<char>) -> Result<Seq<Token>, LexErr> {
    if s.len() == 0 {
        Err(LexErr::EmptyFile)
    } else {
        spec_lex_at(s, 0, 1, 0, false)
    }
}






/// The position of the character `c` read with the given running counts.
pub open spec fn pos_after(line: int, col: int, c: char) -> Pos {
    Pos::Pos(next_line(line, c) as usize, next_col(col, c) as usize)
}

/// A consumed token moves from the remaining lex to the prefix.
proof fn lemma_join_cons(pre: Seq<Token>, t: Token, rest: Result<Seq<Token>, LexErr>)
    ensures
        lex_join(pre, lex_cons(t, rest)) == lex_join(pre.push(t), rest),
{
    match rest {
        Ok(ts) => {
            assert(pre + (seq![t] + ts) =~= pre.push(t) + ts);
        },
        Err(_) => {},
    }
}

/// Two consumed tokens move from the remaining lex to the prefix.
proof fn lemma_join_cons2(pre: Seq<Token>, t1: Token, t2: Token, rest: Result<Seq<Token>, LexErr>)
    ensures
        lex_join(pre, lex_cons2(t1, t2, rest)) == lex_join(pre.push(t1).push(t2), rest),
{
    match rest {
        Ok(ts) => {
            assert(pre + (Seq::empty().push(t1).push(t2) + ts) =~= pre.push(t1).push(t2) + ts);
        },
        Err(_) => {},
    }
}

/// Advancing over a string escape: both characters join the prefix.
proof fn lemma_step_escape(s: Seq<char>, i: int, line: int, col: int, pre: Seq<Token>)
    requires
        0 <= i < s.len(),
        s[i] == '\\',
    ensures
        i + 1 < s.len() ==> lex_join(pre, spec_lex_at(s, i, line, col, true)) == lex_join(
            pre.push(Token::AssemblyTok(pos_after(line, col, s[i]), s[i])).push(
                Token::AssemblyTok(pos_after(line, col, s[i]), s[i + 1]),
            ),
            spec_lex_at(s, i + 2, next_line(line, s[i]), next_col(col, s[i]), true),
        ),
        i + 1 >= s.len() ==> lex_join(pre, spec_lex_at(s, i, line, col, true)) == Err::<
            Seq<Token>,
            LexErr,
        >(LexErr::DanglingEscape(pos_after(line, col, s[i]))),
{
    let c = s[i];
    let l = next_line(line, c);
    let k = next_col(col, c);
    let p = pos_after(line, col, c);
    if i + 1 < s.len() {
        let rest = spec_lex_at(s, i + 2, l, k, true);
        assert(spec_lex_at(s, i, line, col, true) == lex_cons2(
            Token::AssemblyTok(p, c),
            Token::AssemblyTok(p, s[i + 1]),
            rest,
        ));
        lemma_join_cons2(pre, Token::AssemblyTok(p, c), Token::AssemblyTok(p, s[i + 1]), rest);
    }
}

/// Advancing over the closing quote of a string literal.
proof fn lemma_step_endstr(s: Seq<char>, i: int, line: int, col: int, pre: Seq<Token>)
    requires
        0 <= i < s.len(),
        s[i] != '\\',
        s[i] == '"',
    ensures
        lex_join(pre, spec_lex_at(s, i, line, col, true)) == lex_join(
            pre.push(Token::StringEnd(pos_after(line, col, s[i]))),
            spec_lex_at(s, i + 1, next_line(line, s[i]), next_col(col, s[i]), false),
        ),
{
    let c = s[i];
    let p = pos_after(line, col, c);
    let rest = spec_lex_at(s, i + 1, next_line(line, c), next_col(col, c), false);
    assert(spec_lex_at(s, i, line, col, true) == lex_cons(Token::StringEnd(p), rest));
    lemma_join_cons(pre, Token::StringEnd(p), rest);
}

/// Advancing over one character inside a string literal.
proof fn lemma_step_asmchar(s: Seq<char>, i: int, line: int, col: int, pre: Seq<Token>)
    requires
        0 <= i < s.len(),
        s[i] != '\\',
        s[i] != '"',
    ensures
        lex_join(pre, spec_lex_at(s, i, line, col, true)) == lex_join(
            pre.push(Token::AssemblyTok(pos_after(line, col, s[i]), s[i])),
            spec_lex_at(s, i + 1, next_line(line, s[i]), next_col(col, s[i]), true),
        ),
{
    let c = s[i];
    let p = pos_after(line, col, c);
    let rest = spec_lex_at(s, i + 1, next_line(line, c), next_col(col, c), true);
    assert(spec_lex_at(s, i, line, col, true) == lex_cons(Token::AssemblyTok(p, c), rest));
    lemma_join_cons(pre, Token::AssemblyTok(p, c), rest);
}

/// Advancing over one character outside string literals.
proof fn lemma_step_plain(s: Seq<char>, i: int, line: int, col: int, pre: Seq<Token>)
    requires
        0 <= i < s.len(),
    ensures
        tok_of(pos_after(line, col, s[i]), s[i]) is Some ==> lex_join(
            pre,
            spec_lex_at(s, i, line, col, false),
        ) == lex_join(
            pre.push(tok_of(pos_after(line, col, s[i]), s[i])->Some_0),
            spec_lex_at(s, i + 1, next_line(line, s[i]), next_col(col, s[i]), s[i] == '"'),
        ),
        !(tok_of(pos_after(line, col, s[i]), s[i]) is Some) ==> lex_join(
            pre,
            spec_lex_at(s, i, line, col, false),
        ) == Err::<Seq<Token>, LexErr>(
            LexErr::UnexpectedChar(pos_after(line, col, s[i]), s[i]),
        ),
{
    let c = s[i];
    let p = pos_after(line, col, c);
    let rest = spec_lex_at(s, i + 1, next_line(line, c), next_col(col, c), c == '"');
    match tok_of(p, c) {
        Some(t) => {
            assert(spec_lex_at(s, i, line, col, false) == lex_cons(t, rest));
            lemma_join_cons(pre, t, rest);
        },
        None => {
            assert(spec_lex_at(s, i, line, col, false) == Err::<Seq<Token>, LexErr>(
                LexErr::UnexpectedChar(p, c),
            ));
        },
    }
}

/// Lexes the whole source text.
pub fn lexer(src: &[char]) -> (r: Result<Vec<Token>, LexErr>)
    requires
        src@.len() < usize::MAX,
    ensures
        match r {
            Ok(ts) => spec_lexer(src@) == Ok::<Seq<Token>, LexErr>(ts@),
            Err(e) => spec_lexer(src@) == Err::<Seq<Token>, LexErr>(e),
        },
{
    let ghost s = src@;
    if src.len() == 0 {
        return Err(LexErr::EmptyFile);
    }
    let mut out: Vec<Token> = Vec::new();
    let mut i: usize = 0;
    let mut line: usize = 1;
    let mut col: usize = 0;
    let mut in_asm: bool = false;
    while i < src.len()
        invariant
            s == src@,
            s.len() < usize::MAX,
            0 < s.len(),
            i <= s.len(),
            line <= i + 1,
            col <= i + 1,
            spec_lexer(s) == lex_join(
                out@,
                spec_lex_at(s, i as int, line as int, col as int, in_asm),
            ),
        decreases s.len() - i,
    {
        let ghost out0 = out@;
        let ghost gi = i as int;
        let c = src[i];
        let l: usize = if c == '\n' {
            line + 1
        } else {
            line
        };
        let k: usize = if c == '\n' {
            1
        } else {
            col + 1
        };
        let p = Pos::Pos(l, k);
        proof {
            assert(p == pos_after(line as int, col as int, c));
        }
        if in_asm {
            if c == '\\' {
                proof {
                    lemma_step_escape(s, gi, line as int, col as int, out0);
                }
                if i + 1 < src.len() {
                    out.push(Token::AssemblyTok(p, c));
                    out.push(Token::AssemblyTok(p, src[i + 1]));
                    i = i + 2;
                } else {
                    return Err(LexErr::DanglingEscape(p));
                }
            } else if c == '"' {
                proof {
                    lemma_step_endstr(s, gi, line as int, col as int, out0);
                }
                out.push(Token::StringEnd(p));
                in_asm = false;
                i = i + 1;
            } else {
                proof {
                    lemma_step_asmchar(s, gi, line as int, col as int, out0);
                }
                out.push(Token::AssemblyTok(p, c));
                i = i + 1;
            }
        } else {
            proof {
                lemma_step_plain(s, gi, line as int, col as int, out0);
            }
            let t: Token = if ident_char(c) {
                Token::Identifier(p, c)
            } else if c == '{' {
                Token::BlockStart(p)
            } else if c == '}' {
                Token::BlockEnd(p)
            } else if c == ',' {
                Token::Comma(p)
            } else if c == ';' {
                Token::Semicolon(p)
            } else if c == '=' {
                Token::EqualTok(p)
            } else if c == '"' {
                Token::StringStart(p)
            } else if space_char(c) {
                Token::Whitespace(p)
            } else {
                assert(tok_of(p, c) is None);
                return Err(LexErr::UnexpectedChar(p, c));
            };
            assert(tok_of(p, c) == Some(t));
            out.push(t);
            if c == '"' {
                in_asm = true;
            }
            i = i + 1;
        }
        line = l;
        col = k;
    }
    proof {
        assert(spec_lex_at(s, s.len() as int, line as int, col as int, in_asm) == Ok::<
            Seq<Token>,
            LexErr,
        >(Seq::empty()));
        assert(out@ + Seq::<Token>::empty() =~= out@);
    }
    Ok(out)
}

} // verus!
