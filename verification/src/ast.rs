//! The abstract syntax tree of the gadget language, its mathematical
//! model, and the backward lookup of `let` bindings.

use vstd::prelude::*;

verus! {

/// A source position: line and column, both 1-indexed.
#[derive(Clone, Copy, Debug, PartialEq, Eq, Structural)]
pub enum Pos {
    Pos(usize, usize),
}

/// The four types of the gadget language.
#[derive(Clone, Copy, Debug, PartialEq, Eq, Structural)]
pub enum Type {
    ArrayType,
    AsmType,
    GadgetType,
    VoidType,
}

/// An identifier: a non-empty run of characters free of reserved symbols.
pub type Id = Vec<char>;

/// A named binding site: name, position and declared type.
#[derive(Clone, Debug, PartialEq)]
pub enum Variable {
    Var(Id, Pos, Type),
}

/// An assembly string with its position and type.
#[derive(Clone, Debug, PartialEq)]
pub enum Const {
    Asm(Vec<char>, Pos, Type),
}

/// An expression: one top-level construct of a statement.
#[derive(Debug, PartialEq)]
pub enum Exp {
    /// A set of alternative assembly snippets for one chain position.
    Gadget(Vec<Const>),
    /// A reference to a previously declared gadget binding.
    Call(Variable),
    /// A named binding of an expression.
    Let(Variable, Box<Exp>),
    /// An ordered list of assembly strings for `@name` substitution.
    Array(Vec<Const>),
    /// A single named assembly string.
    Constant(Const),
    /// A no-op arising from a bare `;`.
    Empty,
}

/// One statement of the program.
#[derive(Debug, PartialEq)]
pub enum AST {
    Stat(Exp),
}

// ----- mathematical model -----

/// Model of a `Variable`.
pub enum VarV {
    Var(Seq<char>, Pos, Type),
}

/// Model of a `Const`.
pub enum ConstV {
    Asm(Seq<char>, Pos, Type),
}

/// Model of an `Exp`.
pub enum ExpV {
    Gadget(Seq<ConstV>),
    Call(VarV),
    Let(VarV, Box<ExpV>),
    Array(Seq<ConstV>),
    Constant(ConstV),
    Empty,
}

/// Model of a statement.
pub enum AstV {
    Stat(ExpV),
}

impl DeepView for Variable {
    type V = VarV;

    open spec fn deep_view(&self) -> VarV {
        match self {
            Variable::Var(id, p, t) => VarV::Var(id@, *p, *t),
        }
    }
}

impl DeepView for Const {
    type V = ConstV;

    open spec fn deep_view(&self) -> ConstV {
        match self {
            Const::Asm(s, p, t) => ConstV::Asm(s@, *p, *t),
        }
    }
}

/// Model of an expression, by structural recursion.
pub open spec fn exp_view(e: Exp) -> ExpV
    decreases e,
{
    match e {
        Exp::Gadget(cs) => ExpV::Gadget(cs.deep_view()),
        Exp::Call(v) => ExpV::Call(v.deep_view()),
        Exp::Let(v, inner) => ExpV::Let(v.deep_view(), Box::new(exp_view(*inner))),
        Exp::Array(cs) => ExpV::Array(cs.deep_view()),
        Exp::Constant(c) => ExpV::Constant(c.deep_view()),
        Exp::Empty => ExpV::Empty,
    }
}

impl DeepView for Exp {
    type V = ExpV;

    open spec fn deep_view(&self) -> ExpV {
        exp_view(*self)
    }
}

impl DeepView for AST {
    type V = AstV;

    open spec fn deep_view(&self) -> AstV {
        match self {
            AST::Stat(e) => AstV::Stat(e.deep_view()),
        }
    }
}

// ----- statement shapes -----

/// Whether a `let`'s right-hand side has one of the four bindable shapes.
pub open spec fn rhs_shaped(e: ExpV) -> bool {
    ||| e matches ExpV::Gadget(_)
    ||| e matches ExpV::Call(_)
    ||| e matches ExpV::Array(_)
    ||| e matches ExpV::Constant(_)
}

/// Whether every `let` of `s` binds a gadget, call, array or constant.
pub open spec fn lets_shaped(s: Seq<AstV>) -> bool {
    forall|i: int|
        0 <= i < s.len() ==> (#[trigger] s[i] matches AstV::Stat(ExpV::Let(_, rhs))
            ==> rhs_shaped(*rhs))
}

/// Whether one statement is a gadget, a call, or a well-shaped `let`.
pub open spec fn stat_shaped(st: AstV) -> bool {
    match st {
        AstV::Stat(e) => match e {
            ExpV::Gadget(_) => true,
            ExpV::Call(_) => true,
            ExpV::Let(_, rhs) => rhs_shaped(*rhs),
            _ => false,
        },
    }
}

/// Whether every statement of `s` is a gadget, a call, or a well-shaped `let`.
pub open spec fn stats_shaped(s: Seq<AstV>) -> bool {
    forall|i: int| 0 <= i < s.len() ==> stat_shaped(#[trigger] s[i])
}

// ----- lookup of `let` bindings -----

/// Whether statement `st` binds the name `id` through a `let`.
pub open spec fn is_let_of(st: AstV, id: Seq<char>) -> bool {
    st matches AstV::Stat(ExpV::Let(VarV::Var(n, _, _), _)) && n == id
}

/// The index of the last statement in `ast` that binds `id`, if any.
pub open spec fn spec_lookup(ast: Seq<AstV>, id: Seq<char>) -> Option<int>
    decreases ast.len(),
{
    if ast.len() == 0 {
        None
    } else if is_let_of(ast.last(), id) {
        Some(ast.len() - 1)
    } else {
        spec_lookup(ast.drop_last(), id)
    }
}

/// A found index lies in range, binds `id`, and no later statement does.
pub proof fn lemma_spec_lookup(ast: Seq<AstV>, id: Seq<char>)
    ensures
        spec_lookup(ast, id) matches Some(i) ==> 0 <= i < ast.len() && is_let_of(ast[i], id)
            && forall|j: int| i < j < ast.len() ==> !is_let_of(ast[j], id),
        spec_lookup(ast, id) is None ==> forall|j: int|
            0 <= j < ast.len() ==> !is_let_of(ast[j], id),
    decreases ast.len(),
{
    if ast.len() > 0 && !is_let_of(ast.last(), id) {
        lemma_spec_lookup(ast.drop_last(), id);
        assert forall|j: int| 0 <= j < ast.len() - 1 implies ast.drop_last()[j] == ast[j] by {}
    }
}

/// Character-wise equality of two identifiers.
pub fn id_eq(a: &[char], b: &[char]) -> (r: bool)
    ensures
        r <==> a@ == b@,
{
    if a.len() != b.len() {
        assert(a@ != b@) by {
            assert(a@.len() != b@.len());
        }
        return false;
    }
    let mut i: usize = 0;
    while i < a.len()
        invariant
            i <= a.len(),
            a@.len() == b@.len(),
            forall|k: int| 0 <= k < i ==> a@[k] == b@[k],
        decreases a.len() - i,
    {
        if a[i] != b[i] {
            return false;
        }
        i = i + 1;
    }
    proof {
        assert(a@ =~= b@);
    }
    true
}

/// A fresh copy of a character vector.
pub fn copy_chars(v: &[char]) -> (r: Vec<char>)
    ensures
        r@ == v@,
{
    let mut r: Vec<char> = Vec::new();
    let mut i: usize = 0;
    while i < v.len()
        invariant
            i <= v.len(),
            r@ == v@.subrange(0, i as int),
        decreases v.len() - i,
    {
        r.push(v[i]);
        assert(r@ =~= v@.subrange(0, i as int + 1));
        i = i + 1;
    }
    proof {
        assert(r@ =~= v@);
    }
    r
}

/// A fresh copy of a constant.
pub fn copy_const(c: &Const) -> (r: Const)
    ensures
        r.deep_view() == c.deep_view(),
{
    match c {
        Const::Asm(s, p, t) => Const::Asm(copy_chars(s.as_slice()), *p, *t),
    }
}

/// A fresh copy of a variable.
pub fn copy_var(v: &Variable) -> (r: Variable)
    ensures
        r.deep_view() == v.deep_view(),
{
    match v {
        Variable::Var(id, p, t) => Variable::Var(copy_chars(id.as_slice()), *p, *t),
    }
}

/// A fresh copy of a list of constants.
pub fn copy_consts(cs: &Vec<Const>) -> (r: Vec<Const>)
    ensures
        r.deep_view() == cs.deep_view(),
{
    let mut r: Vec<Const> = Vec::new();
    let mut i: usize = 0;
    while i < cs.len()
        invariant
            i <= cs.len(),
            r@.len() == i,
            forall|k: int| 0 <= k < i ==> r@[k].deep_view() == cs@[k].deep_view(),
        decreases cs.len() - i,
    {
        r.push(copy_const(&cs[i]));
        i = i + 1;
    }
    proof {
        assert(r.deep_view() =~= cs.deep_view());
    }
    r
}

/// A fresh copy of an expression.
pub fn copy_exp(e: &Exp) -> (r: Exp)
    ensures
        r.deep_view() == e.deep_view(),
    decreases e,
{
    match e {
        Exp::Gadget(cs) => Exp::Gadget(copy_consts(cs)),
        Exp::Call(v) => Exp::Call(copy_var(v)),
        Exp::Let(v, inner) => Exp::Let(copy_var(v), Box::new(copy_exp(inner))),
        Exp::Array(cs) => Exp::Array(copy_consts(cs)),
        Exp::Constant(c) => Exp::Constant(copy_const(c)),
        Exp::Empty => Exp::Empty,
    }
}

/// The last `let` statement of `ast` binding `id`, scanning backward.
pub fn lookup<'a>(id: &[char], ast: &'a [AST]) -> (r: Option<&'a AST>)
    ensures
        match r {
            Some(st) => spec_lookup(ast.deep_view(), id@) matches Some(i) && st.deep_view()
                == ast.deep_view()[i],
            None => spec_lookup(ast.deep_view(), id@) is None,
        },
{
    let ghost astv = ast.deep_view();
    proof {
        assert(astv.subrange(0, astv.len() as int) =~= astv);
    }
    let mut i: usize = ast.len();
    while i > 0
        invariant
            i <= ast.len(),
            astv == ast.deep_view(),
            astv.len() == ast.len(),
            spec_lookup(astv, id@) == spec_lookup(astv.subrange(0, i as int), id@),
        decreases i,
    {
        i = i - 1;
        let found: bool = match &ast[i] {
            AST::Stat(Exp::Let(Variable::Var(vname, _, _), _)) => id_eq(
                vname.as_slice(),
                id,
            ),
            _ => false,
        };
        proof {
            assert(astv.subrange(0, i as int + 1).last() == astv[i as int]);
            assert(astv.subrange(0, i as int + 1).drop_last() =~= astv.subrange(0, i as int));
        }
        if found {
            assert(is_let_of(astv[i as int], id@));
            assert(spec_lookup(astv.subrange(0, i as int + 1), id@) == Some(i as int));
            return Some(&ast[i]);
        }
        assert(!is_let_of(astv[i as int], id@));
    }
    proof {
        assert(astv.subrange(0, 0) =~= Seq::<AstV>::empty());
    }
    None
}

} // verus!

verus! {

/// Byte-wise equality of two byte strings.
pub fn id_eq_u8(a: &[u8], b: &[u8]) -> (r: bool)
    ensures
        r <==> a@ == b@,
{
    if a.len() != b.len() {
        assert(a@ != b@) by {
            assert(a@.len() != b@.len());
        }
        return false;
    }
    let mut i: usize = 0;
    while i < a.len()
        invariant
            i <= a.len(),
            a@.len() == b@.len(),
            forall|k: int| 0 <= k < i ==> a@[k] == b@[k],
        decreases a.len() - i,
    {
        if a[i] != b[i] {
            return false;
        }
        i = i + 1;
    }
    proof {
        assert(a@ =~= b@);
    }
    true
}

} // verus!
