//! The type checker: one linear scan that holds every statement to the
//! language's four-type discipline and reports the first offence.

use vstd::prelude::*;
use crate::ast::{AST, AstV, Const, ConstV, Exp, ExpV, Pos, Type, Variable, VarV};
use crate::ast::{copy_chars, lemma_spec_lookup, lookup, rhs_shaped, spec_lookup, stat_shaped,
    stats_shaped};

verus! {

/// A type error, carrying the offending text or name, its position and
/// the types involved.
#[derive(Clone, Debug, PartialEq)]
pub enum TyErr {
    /// A gadget or array element whose type is not `AsmType`.
    ElemNotAsm(Vec<char>, Pos, Type),
    /// A constant declaration whose type is not `AsmType`.
    ConstNotAsm(Vec<char>, Pos, Type),
    /// A call whose target does not bind `GadgetType`.
    CallNotGadget(Vec<char>, Pos, Type),
    /// A `let` whose right-hand side shape (third field) does not match
    /// the declared type (fourth field).
    LetMismatch(Vec<char>, Pos, Type, Type),
}

/// Model of a `TyErr`.
pub enum TyErrV {
    ElemNotAsm(Seq<char>, Pos, Type),
    ConstNotAsm(Seq<char>, Pos, Type),
    CallNotGadget(Seq<char>, Pos, Type),
    LetMismatch(Seq<char>, Pos, Type, Type),
}

impl DeepView for TyErr {
    type V = TyErrV;

    open spec fn deep_view(&self) -> TyErrV {
        match self {
            TyErr::ElemNotAsm(s, p, t) => TyErrV::ElemNotAsm(s@, *p, *t),
            TyErr::ConstNotAsm(s, p, t) => TyErrV::ConstNotAsm(s@, *p, *t),
            TyErr::CallNotGadget(s, p, t) => TyErrV::CallNotGadget(s@, *p, *t),
            TyErr::LetMismatch(s, p, a, b) => TyErrV::LetMismatch(s@, *p, *a, *b),
        }
    }
}

// ----- what well-typedness means -----

/// A constant of the `AsmType` type.
pub open spec fn const_asm_typed(c: ConstV) -> bool {
    c matches ConstV::Asm(_, _, Type::AsmType)
}

/// Every element of a gadget or array set has `AsmType`.
pub open spec fn consts_all_asm(cs: Seq<ConstV>) -> bool {
    forall|i: int| 0 <= i < cs.len() ==> const_asm_typed(#[trigger] cs[i])
}

/// The shape type of a well-shaped `let` right-hand side.
pub open spec fn rhs_type(e: ExpV) -> Type {
    match e {
        ExpV::Gadget(_) => Type::GadgetType,
        ExpV::Call(_) => Type::GadgetType,
        ExpV::Array(_) => Type::ArrayType,
        ExpV::Constant(_) => Type::AsmType,
        _ => Type::VoidType,
    }
}

/// Whether a `let` of declared type `ty` accepts right-hand side `rhs`.
pub open spec fn let_well_typed(ty: Type, rhs: ExpV) -> bool {
    match rhs {
        ExpV::Gadget(g) => consts_all_asm(g) && ty == Type::GadgetType,
        ExpV::Call(VarV::Var(_, _, cty)) => cty == Type::GadgetType && ty == Type::GadgetType,
        ExpV::Array(a) => consts_all_asm(a) && ty == Type::ArrayType,
        ExpV::Constant(c) => const_asm_typed(c) && ty == Type::AsmType,
        _ => false,
    }
}

/// Whether one statement passes the type checker.
pub open spec fn stat_well_typed(st: AstV) -> bool {
    match st {
        AstV::Stat(e) => match e {
            ExpV::Gadget(g) => consts_all_asm(g),
            ExpV::Call(VarV::Var(_, _, ty)) => ty == Type::GadgetType,
            ExpV::Let(VarV::Var(_, _, ty), rhs) => let_well_typed(ty, *rhs),
            _ => false,
        },
    }
}

/// Whether the whole program passes the type checker.
pub open spec fn ast_well_typed(s: Seq<AstV>) -> bool {
    forall|i: int| 0 <= i < s.len() ==> stat_well_typed(#[trigger] s[i])
}

// ----- which error the checker reports -----

/// The error for the first non-`AsmType` element of a set, if any.
pub open spec fn set_err(cs: Seq<ConstV>) -> Option<TyErrV>
    decreases cs.len(),
{
    if cs.len() == 0 {
        None
    } else if !const_asm_typed(cs[0]) {
        match cs[0] {
            ConstV::Asm(s, p, t) => Some(TyErrV::ElemNotAsm(s, p, t)),
        }
    } else {
        set_err(cs.drop_first())
    }
}

/// The error for a call through `v`, if any.
pub open spec fn call_err(v: VarV) -> Option<TyErrV> {
    match v {
        VarV::Var(id, p, ty) => if ty == Type::GadgetType {
            None
        } else {
            Some(TyErrV::CallNotGadget(id, p, ty))
        },
    }
}

/// The error for a constant declaration, if any.
pub open spec fn const_err(c: ConstV) -> Option<TyErrV> {
    match c {
        ConstV::Asm(s, p, t) => if t == Type::AsmType {
            None
        } else {
            Some(TyErrV::ConstNotAsm(s, p, t))
        },
    }
}

/// The error for a `let`: its right-hand side's contents are examined
/// first, the shape of the binding second.
pub open spec fn let_err(v: VarV, rhs: ExpV) -> Option<TyErrV> {
    let content = match rhs {
        ExpV::Gadget(g) => set_err(g),
        ExpV::Call(cv) => call_err(cv),
        ExpV::Array(a) => set_err(a),
        ExpV::Constant(c) => const_err(c),
        _ => None,
    };
    if content is Some {
        content
    } else {
        match v {
            VarV::Var(id, p, ty) => if rhs_type(rhs) == ty {
                None
            } else {
                Some(TyErrV::LetMismatch(id, p, rhs_type(rhs), ty))
            },
        }
    }
}

/// The error reported for one statement, if any.
pub open spec fn stat_err(st: AstV) -> Option<TyErrV> {
    match st {
        AstV::Stat(e) => match e {
            ExpV::Gadget(g) => set_err(g),
            ExpV::Call(v) => call_err(v),
            ExpV::Let(v, rhs) => let_err(v, *rhs),
            _ => None,
        },
    }
}

/// The first statement error of the program from index `i` on, if any.
pub open spec fn ast_err_from(s: Seq<AstV>, i: int) -> Option<TyErrV>
    decreases s.len() - i,
    when 0 <= i <= s.len()
{
    if i >= s.len() {
        None
    } else if stat_err(s[i]) is Some {
        stat_err(s[i])
    } else {
        ast_err_from(s, i + 1)
    }
}

/// On shaped statements, the reported error is absent exactly when the
/// statement is well typed.
pub proof fn lemma_stat_err_none(st: AstV)
    requires
        stat_shaped(st),
    ensures
        stat_err(st) is None <==> stat_well_typed(st),
{
    match st {
        AstV::Stat(e) => match e {
            ExpV::Gadget(g) => lemma_set_err_none(g),
            ExpV::Let(v, rhs) => {
                match *rhs {
                    ExpV::Gadget(g) => lemma_set_err_none(g),
                    ExpV::Array(a) => lemma_set_err_none(a),
                    _ => {},
                }
            },
            _ => {},
        },
    }
}

/// A set has no element error exactly when all its elements are `AsmType`.
pub proof fn lemma_set_err_none(cs: Seq<ConstV>)
    ensures
        set_err(cs) is None <==> consts_all_asm(cs),
    decreases cs.len(),
{
    if cs.len() > 0 && const_asm_typed(cs[0]) {
        lemma_set_err_none(cs.drop_first());
        if consts_all_asm(cs) {
            assert forall|j: int|
                0 <= j < cs.drop_first().len() implies const_asm_typed(
                #[trigger] cs.drop_first()[j],
            ) by {
                assert(cs.drop_first()[j] == cs[j + 1]);
            }
        }
        if consts_all_asm(cs.drop_first()) {
            assert forall|j: int| 0 <= j < cs.len() implies const_asm_typed(#[trigger] cs[j]) by {
                if j >= 1 {
                    assert(cs[j] == cs.drop_first()[j - 1]);
                }
            }
        }
    }
}

// ----- the checker -----

/// Checks every element of a gadget or array set.
fn set_check(g: &Vec<Const>) -> (r: Result<(), TyErr>)
    ensures
        match r {
            Ok(_) => set_err(g.deep_view()) is None,
            Err(e) => set_err(g.deep_view()) == Some(e.deep_view()),
        },
{
    let ghost gv = g.deep_view();
    proof {
        assert(gv.skip(0) =~= gv);
    }
    let mut i: usize = 0;
    while i < g.len()
        invariant
            i <= g.len(),
            gv == g.deep_view(),
            gv.len() == g.len(),
            set_err(gv) == set_err(gv.skip(i as int)),
        decreases g.len() - i,
    {
        proof {
            assert(gv.skip(i as int)[0] == gv[i as int]);
        }
        match &g[i] {
            Const::Asm(s, p, t) => {
                match *t {
                    Type::AsmType => {},
                    _ => {
                        return Err(TyErr::ElemNotAsm(copy_chars(s.as_slice()), *p, *t));
                    },
                }
            },
        }
        proof {
            assert(gv.skip(i as int).drop_first() =~= gv.skip(i as int + 1));
        }
        i = i + 1;
    }
    proof {
        assert(gv.skip(g.len() as int) =~= Seq::<ConstV>::empty());
    }
    Ok(())
}

/// Checks a call target's type.
fn call_check(v: &Variable) -> (r: Result<(), TyErr>)
    ensures
        match r {
            Ok(_) => call_err(v.deep_view()) is None,
            Err(e) => call_err(v.deep_view()) == Some(e.deep_view()),
        },
{
    match v {
        Variable::Var(id, p, ty) => {
            match *ty {
                Type::GadgetType => Ok(()),
                _ => Err(TyErr::CallNotGadget(copy_chars(id.as_slice()), *p, *ty)),
            }
        },
    }
}

/// Checks a constant declaration's type.
fn const_check(c: &Const) -> (r: Result<(), TyErr>)
    ensures
        match r {
            Ok(_) => const_err(c.deep_view()) is None,
            Err(e) => const_err(c.deep_view()) == Some(e.deep_view()),
        },
{
    match c {
        Const::Asm(s, p, t) => {
            match *t {
                Type::AsmType => Ok(()),
                _ => Err(TyErr::ConstNotAsm(copy_chars(s.as_slice()), *p, *t)),
            }
        },
    }
}

/// Checks a `let`: the right-hand side's contents, then the binding shape.
fn let_check(v: &Variable, e: &Exp) -> (r: Result<(), TyErr>)
    requires
        rhs_shaped(e.deep_view()),
    ensures
        match r {
            Ok(_) => let_err(v.deep_view(), e.deep_view()) is None,
            Err(err) => let_err(v.deep_view(), e.deep_view()) == Some(err.deep_view()),
        },
{
    let content: Result<(), TyErr> = match e {
        Exp::Gadget(g) => set_check(g),
        Exp::Call(cv) => call_check(cv),
        Exp::Array(a) => set_check(a),
        Exp::Constant(c) => const_check(c),
        _ => Ok(()),
    };
    match content {
        Err(err) => Err(err),
        Ok(_) => {
            let shape: Type = match e {
                Exp::Gadget(_) => Type::GadgetType,
                Exp::Call(_) => Type::GadgetType,
                Exp::Array(_) => Type::ArrayType,
                Exp::Constant(_) => Type::AsmType,
                _ => Type::VoidType,
            };
            match v {
                Variable::Var(id, p, ty) => {
                    if shape == *ty {
                        Ok(())
                    } else {
                        Err(TyErr::LetMismatch(copy_chars(id.as_slice()), *p, shape, *ty))
                    }
                },
            }
        },
    }
}

/// The type of the last binding of `id`, or `VoidType` when unbound.
pub open spec fn spec_get_type(s: Seq<AstV>, id: Seq<char>) -> Type {
    match spec_lookup(s, id) {
        Some(i) => match s[i] {
            AstV::Stat(ExpV::Let(VarV::Var(_, _, ty), _)) => ty,
            _ => Type::VoidType,
        },
        None => Type::VoidType,
    }
}

/// Looks up the declared type of `id`, scanning the program backward.
pub fn get_type(id: &[char], ast: &[AST]) -> (r: Type)
    ensures
        r == spec_get_type(ast.deep_view(), id@),
{
    proof {
        lemma_spec_lookup(ast.deep_view(), id@);
    }
    match lookup(id, ast) {
        Some(AST::Stat(Exp::Let(Variable::Var(_, _, ty), _))) => *ty,
        _ => Type::VoidType,
    }
}

/// Checks the whole program, reporting the first type error.
pub fn typechecker(ast: &[AST]) -> (r: Result<(), TyErr>)
    requires
        stats_shaped(ast.deep_view()),
    ensures
        r is Ok <==> ast_well_typed(ast.deep_view()),
        (match r {
            Ok(_) => ast_err_from(ast.deep_view(), 0) is None,
            Err(e) => ast_err_from(ast.deep_view(), 0) == Some(e.deep_view()),
        }),
{
    let ghost astv = ast.deep_view();
    let mut i: usize = 0;
    while i < ast.len()
        invariant
            i <= ast.len(),
            astv == ast.deep_view(),
            astv.len() == ast.len(),
            stats_shaped(astv),
            ast_err_from(astv, 0) == ast_err_from(astv, i as int),
            forall|k: int| 0 <= k < i ==> stat_well_typed(#[trigger] astv[k]),
        decreases ast.len() - i,
    {
        let st: Result<(), TyErr> = match &ast[i] {
            AST::Stat(Exp::Gadget(g)) => set_check(g),
            AST::Stat(Exp::Call(v)) => call_check(v),
            AST::Stat(Exp::Let(v, e)) => let_check(v, &**e),
            _ => Ok(()),
        };
        proof {
            lemma_stat_err_none(astv[i as int]);
        }
        match st {
            Err(e) => {
                assert(stat_err(astv[i as int]) == Some(e.deep_view()));
                return Err(e);
            },
            Ok(_) => {},
        }
        i = i + 1;
    }
    proof {
        assert(ast_err_from(astv, astv.len() as int) is None);
    }
    Ok(())
}

} // verus!
