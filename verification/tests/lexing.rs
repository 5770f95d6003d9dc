use ropc::lexer::{lexer, LexErr, Pos, Token};

fn chars(s: &str) -> Vec<char> {
    s.chars().collect()
}

#[test]
fn empty_file_is_an_error() {
    assert_eq!(lexer(&[]), Err(LexErr::EmptyFile));
}

#[test]
fn tokens_carry_positions() {
    let ts = lexer(&chars("a=;")).expect("the text lexes");
    assert_eq!(
        ts,
        vec![
            Token::Identifier(Pos::Pos(1, 1), 'a'),
            Token::EqualTok(Pos::Pos(1, 2)),
            Token::Semicolon(Pos::Pos(1, 3)),
        ]
    );
}

#[test]
fn string_literals_switch_modes() {
    let ts = lexer(&chars("\"r,\"")).expect("the literal lexes");
    assert_eq!(
        ts,
        vec![
            Token::StringStart(Pos::Pos(1, 1)),
            Token::AssemblyTok(Pos::Pos(1, 2), 'r'),
            Token::AssemblyTok(Pos::Pos(1, 3), ','),
            Token::StringEnd(Pos::Pos(1, 4)),
        ]
    );
}

#[test]
fn newline_resets_the_column() {
    let ts = lexer(&chars("a\nb")).expect("the text lexes");
    assert_eq!(
        ts,
        vec![
            Token::Identifier(Pos::Pos(1, 1), 'a'),
            Token::Whitespace(Pos::Pos(2, 1)),
            Token::Identifier(Pos::Pos(2, 2), 'b'),
        ]
    );
}

#[test]
fn escapes_inside_strings_are_kept() {
    let ts = lexer(&chars("\"a\\\"b\"")).expect("the escape lexes");
    assert_eq!(
        ts,
        vec![
            Token::StringStart(Pos::Pos(1, 1)),
            Token::AssemblyTok(Pos::Pos(1, 2), 'a'),
            Token::AssemblyTok(Pos::Pos(1, 3), '\\'),
            Token::AssemblyTok(Pos::Pos(1, 3), '"'),
            Token::AssemblyTok(Pos::Pos(1, 4), 'b'),
            Token::StringEnd(Pos::Pos(1, 5)),
        ]
    );
}

#[test]
fn dangling_escape_is_an_error() {
    assert!(matches!(lexer(&chars("\"a\\")), Err(LexErr::DanglingEscape(_))));
}

#[test]
fn unexpected_character_is_an_error() {
    assert_eq!(
        lexer(&chars("a$")),
        Err(LexErr::UnexpectedChar(Pos::Pos(1, 2), '$'))
    );
}
