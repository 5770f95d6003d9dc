use ropc::ast::{copy_exp, Pos, AST, Const, Exp, Type, Variable};
use ropc::symtab::{lookup, SymTab};
use ropc::parser::{parser, ParseErr};
use ropc::typechecker::{typechecker, TyErr};
use ropc::ir::ir;

fn chars(s: &str) -> Vec<char> {
    s.chars().collect()
}

fn string_of(v: &[char]) -> String {
    v.iter().collect()
}

fn copy_ast(ast: &[AST]) -> Vec<AST> {
    ast.iter()
        .map(|st| match st {
            AST::Stat(e) => AST::Stat(copy_exp(e)),
        })
        .collect()
}

fn gadget_strings(ast: &[AST]) -> Vec<Vec<String>> {
    let mut out = Vec::new();
    for st in ast {
        if let AST::Stat(Exp::Gadget(g)) = st {
            out.push(
                g.iter()
                    .map(|c| match c {
                        Const::Asm(s, _, _) => string_of(s),
                    })
                    .collect(),
            );
        }
    }
    out
}

#[test]
fn parse_minimal_gadget() {
    let src = chars("{ \"ret\" }");
    let ast = parser(&src).expect("gadget statement parses");
    assert_eq!(ast.len(), 1);
    assert_eq!(gadget_strings(&ast), vec![vec!["ret".to_string()]]);
    assert!(typechecker(&ast).is_ok());
}

#[test]
fn parse_let_and_call() {
    let src = chars("g = { \"ret\" };\ng;");
    let ast = parser(&src).expect("let and call parse");
    assert_eq!(ast.len(), 2);
    match &ast[1] {
        AST::Stat(Exp::Call(Variable::Var(id, _, ty))) => {
            assert_eq!(string_of(id), "g");
            assert_eq!(*ty, Type::GadgetType);
        },
        other => panic!("expected a call statement, got {:?}", other),
    }
    assert!(typechecker(&ast).is_ok());
}

#[test]
fn macro_expansion_cartesian() {
    // Two references against one array and one constant multiply out.
    let src = chars("regs = [ \"rdi\", \"rsi\" ];\n{ \"pop @regs; ret\" };");
    let mut ast = parser(&src).expect("macro source parses");
    ir(&mut ast);
    assert_eq!(
        gadget_strings(&ast),
        vec![vec!["pop rdi; ret".to_string(), "pop rsi; ret".to_string()]]
    );
    assert!(typechecker(&ast).is_ok());
}

#[test]
fn macro_expansion_two_refs() {
    let src = chars(
        "regs = [ \"rdi\", \"rsi\" ];\nword = \"ret\";\n{ \"pop @regs; @word\" };",
    );
    let mut ast = parser(&src).expect("macro source parses");
    ir(&mut ast);
    assert_eq!(
        gadget_strings(&ast),
        vec![vec!["pop rdi; ret".to_string(), "pop rsi; ret".to_string()]]
    );
}

#[test]
fn ir_pass_idempotent_on_macro_source() {
    let src = chars("regs = [ \"rdi\", \"rsi\" ];\n{ \"pop @regs; ret\" };");
    let mut once = parser(&src).expect("macro source parses");
    ir(&mut once);
    let mut twice = copy_ast(&once);
    ir(&mut twice);
    assert_eq!(once, twice);
}

#[test]
fn ir_keeps_unresolvable_references() {
    // An unbound name stays in place, on both passes.
    let src = chars("{ \"pop @nothing; ret\" }");
    let mut ast = parser(&src).expect("gadget parses");
    ir(&mut ast);
    assert_eq!(gadget_strings(&ast), vec![vec!["pop @nothing; ret".to_string()]]);
    let mut twice = copy_ast(&ast);
    ir(&mut twice);
    assert_eq!(ast, twice);
}

#[test]
fn constant_expansion_concatenates() {
    let src = chars("ws = [ \"a\", \"b\" ];\njoined = \"@ws\";\ng = { joined };");
    let mut ast = parser(&src).expect("source parses");
    ir(&mut ast);
    match &ast[1] {
        AST::Stat(Exp::Let(_, rhs)) => match &**rhs {
            Exp::Constant(Const::Asm(s, _, _)) => assert_eq!(string_of(s), "ab"),
            other => panic!("expected a constant, got {:?}", other),
        },
        other => panic!("expected a let, got {:?}", other),
    }
}

#[test]
fn undefined_identifier_called() {
    let src = chars("foo;");
    match parser(&src) {
        Err(ParseErr::UndefinedCall(_, name)) => assert_eq!(string_of(&name), "foo"),
        other => panic!("expected an undefined-call error, got {:?}", other),
    }
}

#[test]
fn undefined_identifier_referenced() {
    let src = chars("{ bar }");
    match parser(&src) {
        Err(ParseErr::UndefinedRef(_, name)) => assert_eq!(string_of(&name), "bar"),
        other => panic!("expected an undefined-reference error, got {:?}", other),
    }
}

#[test]
fn annotated_let_is_rejected() {
    // The language has neither a binding keyword nor type annotations.
    let src = chars("let g = { \"ret\" }; let a : Array = g;");
    assert!(parser(&src).is_err());
}

#[test]
fn type_mismatch_gadget_placeholder() {
    // A gadget name inside a gadget set parses as a placeholder but is
    // rejected by the type checker.
    let src = chars("g = { \"ret\" };\n{ g };");
    let ast = parser(&src).expect("placeholder parses");
    match typechecker(&ast) {
        Err(TyErr::ElemNotAsm(name, _, ty)) => {
            assert_eq!(string_of(&name), "g");
            assert_eq!(ty, Type::GadgetType);
        },
        other => panic!("expected an element type error, got {:?}", other),
    }
}

#[test]
fn type_mismatch_let_shape() {
    // A let whose declared type disagrees with its right-hand side.
    let ast = vec![AST::Stat(Exp::Let(
        Variable::Var(chars("a"), Pos::Pos(1, 1), Type::ArrayType),
        Box::new(Exp::Gadget(vec![Const::Asm(chars("ret"), Pos::Pos(1, 5), Type::AsmType)])),
    ))];
    match typechecker(&ast) {
        Err(TyErr::LetMismatch(name, _, rhs, declared)) => {
            assert_eq!(string_of(&name), "a");
            assert_eq!(rhs, Type::GadgetType);
            assert_eq!(declared, Type::ArrayType);
        },
        other => panic!("expected a let mismatch, got {:?}", other),
    }
}

#[test]
fn shadowing_later_binding_wins() {
    let src = chars("r = \"rax\";\nr = \"rbx\";\n{ \"pop @r\" };");
    let mut ast = parser(&src).expect("shadowing parses");
    ir(&mut ast);
    assert_eq!(gadget_strings(&ast), vec![vec!["pop rbx".to_string()]]);
}

#[test]
fn inner_references_expand_first() {
    // A name bound to an @-bearing string expands bottom-up.
    let src = chars("inner = \"rdi\";\nouter = \"pop @inner\";\n{ \"@outer; ret\" };");
    let mut ast = parser(&src).expect("nested references parse");
    ir(&mut ast);
    assert_eq!(gadget_strings(&ast), vec![vec!["pop rdi; ret".to_string()]]);
}

#[test]
fn comments_and_whitespace_are_skipped() {
    let src = chars("// a line comment\n/* a block\ncomment */ { \"ret\" }");
    let ast = parser(&src).expect("comments are skipped");
    assert_eq!(gadget_strings(&ast), vec![vec!["ret".to_string()]]);
}

#[test]
fn unterminated_string_is_rejected_at_its_opening_quote() {
    let src = chars("{ \"ret }");
    match parser(&src) {
        Err(ParseErr::UnclosedString(p)) => assert_eq!(p, Pos::Pos(1, 4)),
        other => panic!("expected an unterminated-string error, got {:?}", other),
    }
}

#[test]
fn unterminated_comment_is_rejected_at_its_opening() {
    let src = chars("/* a comment");
    match parser(&src) {
        Err(ParseErr::UnclosedComment(p)) => assert_eq!(p, Pos::Pos(1, 2)),
        other => panic!("expected an unterminated-comment error, got {:?}", other),
    }
}

#[test]
fn empty_assembly_is_rejected() {
    let src = chars("c = \"\";");
    assert!(matches!(parser(&src), Err(ParseErr::EmptyAsm(_))));
}

#[test]
fn missing_semicolon_is_rejected() {
    let src = chars("c = \"ret\"");
    assert!(matches!(parser(&src), Err(ParseErr::ExpectedSemicolon(_, _))));
}

#[test]
fn symtab_finds_first_entry() {
    let tab = vec![
        SymTab::Entry(chars("a"), Type::AsmType),
        SymTab::Entry(chars("b"), Type::GadgetType),
        SymTab::Entry(chars("a"), Type::ArrayType),
    ];
    match lookup(tab, chars("a")) {
        Some(SymTab::Entry(id, ty)) => {
            assert_eq!(string_of(&id), "a");
            assert_eq!(ty, Type::AsmType);
        },
        None => panic!("entry expected"),
    }
    assert!(lookup(Vec::new(), chars("a")).is_none());
}

#[test]
fn is_hex_accepts_prefixed_and_bare_values() {
    let hx = |s: &str| ropc::utils::is_hex(&chars(s));
    assert!(hx("0x4011a0"));
    assert!(hx("0XDEAD"));
    assert!(hx("4011a0"));
    assert!(!hx("0x"));
    assert!(!hx("0xzz"));
    assert!(!hx("ret"));
    assert!(hx(""));
}
