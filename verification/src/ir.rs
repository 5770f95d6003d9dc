//! The reference-expansion pass: `@name` references inside assembly
//! strings are substituted with the strings bound to `name`, taking the
//! Cartesian product over all references of a string.

use vstd::prelude::*;
use crate::ast::{AST, AstV, Const, ConstV, Exp, ExpV, Type, Variable};
use crate::ast::{copy_chars, copy_const, copy_var, spec_lookup};
use crate::parser::{is_reserved_char, reserved_char};

verus! {

// ----- the mathematical pass -----

/// Whether `c` ends a reference name: a reserved symbol or a space.
pub open spec fn is_name_end(c: char) -> bool {
    is_reserved_char(c) || c == ' '
}

/// The end of the name run that starts at `j`.
pub open spec fn run_end(s: Seq<char>, j: int) -> int
    decreases s.len() - j,
    when j >= 0
{
    if j >= s.len() {
        j
    } else if is_name_end(s[j]) {
        j
    } else {
        run_end(s, j + 1)
    }
}

/// The name referenced by the `@` at index `i`.
pub open spec fn ref_name(s: Seq<char>, i: int) -> Seq<char> {
    s.subrange(i + 1, run_end(s, i + 1))
}

/// The indices of the `@` characters before `j`, in order.
pub open spec fn at_upto(s: Seq<char>, j: int) -> Seq<int>
    decreases j,
    when j <= s.len()
{
    if j <= 0 {
        Seq::empty()
    } else if s[j - 1] == '@' {
        at_upto(s, j - 1).push(j - 1)
    } else {
        at_upto(s, j - 1)
    }
}

/// The indices of all `@` characters of `s`, in order.
pub open spec fn at_list(s: Seq<char>) -> Seq<int> {
    at_upto(s, s.len() as int)
}

/// The constants a binding offers for substitution: one for a constant,
/// each element for an array, none for any other binding.
pub open spec fn get_consts_s(e: ExpV) -> Option<Seq<ConstV>> {
    match e {
        ExpV::Array(v) => Some(v),
        ExpV::Constant(c) => Some(seq![c]),
        _ => None,
    }
}

/// The strings of a list of constants.
pub open spec fn strs_of(cs: Seq<ConstV>) -> Seq<Seq<char>> {
    cs.map_values(
        |c: ConstV|
            match c {
                ConstV::Asm(s, _, _) => s,
            },
    )
}

/// The substitution constants bound to `name` in the rewritten prefix:
/// `None` when the name is unbound, the empty list when the binding is
/// neither a constant nor an array.
pub open spec fn get_asms_c(pre: Seq<AstV>, name: Seq<char>) -> Option<Seq<ConstV>> {
    match spec_lookup(pre, name) {
        None => None,
        Some(i) => match pre[i] {
            AstV::Stat(ExpV::Let(_, rhs)) => match get_consts_s(*rhs) {
                Some(v) => Some(v),
                None => Some(Seq::empty()),
            },
            _ => Some(Seq::empty()),
        },
    }
}

/// The replacement strings for `name`, if it is bound.
pub open spec fn get_asms_s(pre: Seq<AstV>, name: Seq<char>) -> Option<Seq<Seq<char>>> {
    match get_asms_c(pre, name) {
        Some(v) => Some(strs_of(v)),
        None => None,
    }
}

/// The replacement sets of the resolvable references among the first `k`
/// reference indices.
pub open spec fn rvals_upto(s: Seq<char>, pre: Seq<AstV>, idxs: Seq<int>, k: int) -> Seq<
    Seq<Seq<char>>,
>
    decreases k,
    when k <= idxs.len()
{
    if k <= 0 {
        Seq::empty()
    } else {
        match get_asms_s(pre, ref_name(s, idxs[k - 1])) {
            Some(v) => rvals_upto(s, pre, idxs, k - 1).push(v),
            None => rvals_upto(s, pre, idxs, k - 1),
        }
    }
}

/// The `@`-prefixed names of the resolvable references among the first
/// `k` reference indices.
pub open spec fn rnames_upto(s: Seq<char>, pre: Seq<AstV>, idxs: Seq<int>, k: int) -> Seq<
    Seq<char>,
>
    decreases k,
    when k <= idxs.len()
{
    if k <= 0 {
        Seq::empty()
    } else {
        match get_asms_s(pre, ref_name(s, idxs[k - 1])) {
            Some(_) => rnames_upto(s, pre, idxs, k - 1).push(
                seq!['@'] + ref_name(s, idxs[k - 1]),
            ),
            None => rnames_upto(s, pre, idxs, k - 1),
        }
    }
}

/// The first `k` extensions of one partial tuple by a choice from `arr`.
pub open spec fn row_upto(a: Seq<Seq<char>>, arr: Seq<Seq<char>>, k: int) -> Seq<Seq<Seq<char>>>
    decreases k,
    when k <= arr.len()
{
    if k <= 0 {
        Seq::empty()
    } else {
        row_upto(a, arr, k - 1).push(a.push(arr[k - 1]))
    }
}

/// The extensions of the first `k` partial tuples of `acc` by one choice
/// from `arr` each.
pub open spec fn cross_upto(acc: Seq<Seq<Seq<char>>>, arr: Seq<Seq<char>>, k: int) -> Seq<
    Seq<Seq<char>>,
>
    decreases k,
    when k <= acc.len()
{
    if k <= 0 {
        Seq::empty()
    } else {
        cross_upto(acc, arr, k - 1) + row_upto(acc[k - 1], arr, arr.len() as int)
    }
}

/// The Cartesian product of the first `k` replacement sets.
pub open spec fn cart_upto(vs: Seq<Seq<Seq<char>>>, k: int) -> Seq<Seq<Seq<char>>>
    decreases k,
    when k <= vs.len()
{
    if k <= 0 {
        seq![Seq::<Seq<char>>::empty()]
    } else {
        let prev = cart_upto(vs, k - 1);
        cross_upto(prev, vs[k - 1], prev.len() as int)
    }
}

/// The Cartesian product of all replacement sets, in choice order.
pub open spec fn cart(vs: Seq<Seq<Seq<char>>>) -> Seq<Seq<Seq<char>>> {
    cart_upto(vs, vs.len() as int)
}

/// The first index at or after `j` where `pat` occurs in `s`, or `-1`.
pub open spec fn find_at(s: Seq<char>, pat: Seq<char>, j: int) -> int
    decreases s.len() - j,
    when j >= 0 && pat.len() >= 1
{
    if j + pat.len() > s.len() {
        -1
    } else if s.subrange(j, j + pat.len()) == pat {
        j
    } else {
        find_at(s, pat, j + 1)
    }
}

/// `s` with its first occurrence of `pat` replaced by `rep`.
pub open spec fn replace_first(s: Seq<char>, pat: Seq<char>, rep: Seq<char>) -> Seq<char> {
    let j = find_at(s, pat, 0);
    if j < 0 {
        s
    } else {
        s.subrange(0, j) + rep + s.skip(j + pat.len())
    }
}

/// The string after the first `k` reference names are replaced, left to
/// right, with the matching components of the tuple.
pub open spec fn apply_upto(s: Seq<char>, names: Seq<Seq<char>>, tup: Seq<Seq<char>>, k: int) -> Seq<
    char,
>
    decreases k,
    when k <= names.len() && k <= tup.len()
{
    if k <= 0 {
        s
    } else {
        replace_first(apply_upto(s, names, tup, k - 1), names[k - 1], tup[k - 1])
    }
}

/// One full expansion of `s` under the tuple `tup`.
pub open spec fn apply_tuple(s: Seq<char>, names: Seq<Seq<char>>, tup: Seq<Seq<char>>) -> Seq<
    char,
> {
    if tup.len() < names.len() {
        apply_upto(s, names, tup, tup.len() as int)
    } else {
        apply_upto(s, names, tup, names.len() as int)
    }
}

/// The expansions of `s` under the first `k` tuples.
pub open spec fn apply_all_upto(
    s: Seq<char>,
    names: Seq<Seq<char>>,
    tups: Seq<Seq<Seq<char>>>,
    k: int,
) -> Seq<Seq<char>>
    decreases k,
    when k <= tups.len()
{
    if k <= 0 {
        Seq::empty()
    } else {
        apply_all_upto(s, names, tups, k - 1).push(apply_tuple(s, names, tups[k - 1]))
    }
}

/// Every expansion of the string `s` against the rewritten prefix.
pub open spec fn expansions(pre: Seq<AstV>, s: Seq<char>) -> Seq<Seq<char>> {
    let idxs = at_list(s);
    if idxs.len() == 0 {
        seq![s]
    } else {
        let vs = rvals_upto(s, pre, idxs, idxs.len() as int);
        let ns = rnames_upto(s, pre, idxs, idxs.len() as int);
        let tups = cart(vs);
        apply_all_upto(s, ns, tups, tups.len() as int)
    }
}

/// The expansions of one set element: a plain assembly constant explodes
/// into its expansions, any other element stays as it is.
pub open spec fn elem_exp(pre: Seq<AstV>, c: ConstV) -> Seq<ConstV> {
    match c {
        ConstV::Asm(s, p, ty) => if ty == Type::AsmType {
            expansions(pre, s).map_values(|s2: Seq<char>| ConstV::Asm(s2, p, Type::AsmType))
        } else {
            seq![c]
        },
    }
}

/// The expansion of the first `k` elements of a gadget or array body.
pub open spec fn expand_upto(pre: Seq<AstV>, cs: Seq<ConstV>, k: int) -> Seq<ConstV>
    decreases k,
    when k <= cs.len()
{
    if k <= 0 {
        Seq::empty()
    } else {
        expand_upto(pre, cs, k - 1) + elem_exp(pre, cs[k - 1])
    }
}

/// The expansion of a whole gadget or array body.
pub open spec fn expand_list(pre: Seq<AstV>, cs: Seq<ConstV>) -> Seq<ConstV> {
    expand_upto(pre, cs, cs.len() as int)
}

/// The concatenation of the first `k` expansions, for constants.
pub open spec fn concat_upto(ss: Seq<Seq<char>>, k: int) -> Seq<char>
    decreases k,
    when k <= ss.len()
{
    if k <= 0 {
        Seq::empty()
    } else {
        concat_upto(ss, k - 1) + ss[k - 1]
    }
}

/// The rewritten right-hand side of a `let`.
pub open spec fn rewrite_rhs(pre: Seq<AstV>, e: ExpV) -> ExpV {
    match e {
        ExpV::Gadget(g) => ExpV::Gadget(expand_list(pre, g)),
        ExpV::Array(a) => ExpV::Array(expand_list(pre, a)),
        ExpV::Constant(c) => match c {
            ConstV::Asm(s, p, ty) => ExpV::Constant(
                ConstV::Asm(
                    concat_upto(expansions(pre, s), expansions(pre, s).len() as int),
                    p,
                    ty,
                ),
            ),
        },
        _ => e,
    }
}

/// The rewritten statement at one position, against the rewritten prefix.
pub open spec fn rewrite_stat(pre: Seq<AstV>, st: AstV) -> AstV {
    match st {
        AstV::Stat(e) => match e {
            ExpV::Gadget(g) => AstV::Stat(ExpV::Gadget(expand_list(pre, g))),
            ExpV::Let(v, rhs) => AstV::Stat(ExpV::Let(v, Box::new(rewrite_rhs(pre, *rhs)))),
            _ => st,
        },
    }
}

/// The pass applied to the first `i` statements, each rewritten against
/// its own already-rewritten prefix.
pub open spec fn ir_upto(s: Seq<AstV>, i: int) -> Seq<AstV>
    decreases i,
    when 0 <= i <= s.len()
{
    if i <= 0 {
        Seq::empty()
    } else {
        let d = ir_upto(s, i - 1);
        d.push(rewrite_stat(d, s[i - 1]))
    }
}

/// The whole pass.
pub open spec fn ir_spec(s: Seq<AstV>) -> Seq<AstV> {
    ir_upto(s, s.len() as int)
}

} // verus!

verus! {

// ----- executable helpers -----

/// Executable form of `is_name_end`.
fn name_end(c: char) -> (r: bool)
    ensures
        r == is_name_end(c),
{
    reserved_char(c) || c == ' '
}

/// Reads the reference name that follows the `@` at index `i`.
#[verifier::loop_isolation(false)]
fn name_at(s: &[char], i: usize) -> (r: Vec<char>)
    requires
        i < s@.len(),
        s@.len() <= usize::MAX,
    ensures
        r@ == ref_name(s@, i as int),
{
    let mut j: usize = i + 1;
    let mut out: Vec<char> = Vec::new();
    while j < s.len() && !name_end(s[j])
        invariant
            i + 1 <= j <= s@.len(),
            run_end(s@, i as int + 1) == run_end(s@, j as int),
            out@ == s@.subrange(i as int + 1, j as int),
        decreases s@.len() - j,
    {
        out.push(s[j]);
        proof {
            assert(out@ =~= s@.subrange(i as int + 1, j as int + 1));
        }
        j = j + 1;
    }
    proof {
        assert(run_end(s@, j as int) == j as int);
        assert(out@ =~= ref_name(s@, i as int));
    }
    out
}

/// Collects the indices of all `@` characters of `s`.
#[verifier::loop_isolation(false)]
fn at_indices(s: &[char]) -> (r: Vec<usize>)
    ensures
        r@.len() == at_list(s@).len(),
        forall|k: int| 0 <= k < r@.len() ==> r@[k] as int == at_list(s@)[k],
        forall|k: int| 0 <= k < r@.len() ==> r@[k] < s@.len(),
{
    let mut out: Vec<usize> = Vec::new();
    let mut j: usize = 0;
    while j < s.len()
        invariant
            j <= s@.len(),
            out@.len() == at_upto(s@, j as int).len(),
            forall|k: int| 0 <= k < out@.len() ==> out@[k] as int == at_upto(s@, j as int)[k],
            forall|k: int| 0 <= k < out@.len() ==> out@[k] < s@.len(),
        decreases s@.len() - j,
    {
        if s[j] == '@' {
            out.push(j);
        }
        j = j + 1;
    }
    out
}

/// The substitution constants a binding offers.
fn get_consts(e: &Exp) -> (r: Option<Vec<Const>>)
    ensures
        match r {
            Some(v) => get_consts_s(e.deep_view()) == Some(v.deep_view()),
            None => get_consts_s(e.deep_view()) is None,
        },
{
    match e {
        Exp::Array(v) => {
            let mut out: Vec<Const> = Vec::new();
            let mut i: usize = 0;
            while i < v.len()
                invariant
                    i <= v@.len(),
                    out@.len() == i,
                    forall|k: int| 0 <= k < i ==> out@[k].deep_view() == v@[k].deep_view(),
                decreases v@.len() - i,
            {
                out.push(copy_const(&v[i]));
                i = i + 1;
            }
            proof {
                assert(out.deep_view() =~= v.deep_view());
                assert(get_consts_s(e.deep_view()) == Some(v.deep_view()));
            }
            Some(out)
        },
        Exp::Constant(c) => {
            let mut out: Vec<Const> = Vec::new();
            out.push(copy_const(c));
            proof {
                assert(out.deep_view() =~= seq![c.deep_view()]);
            }
            Some(out)
        },
        _ => None,
    }
}

/// Scans the first `hi` statements backward for the binding of `id` and
/// hands out its substitution constants.
#[verifier::loop_isolation(false)]
fn get_asms(id: &[char], ast: &[AST], hi: usize) -> (r: Option<Vec<Const>>)
    requires
        hi <= ast@.len(),
    ensures
        match r {
            Some(v) => get_asms_c(ast.deep_view().subrange(0, hi as int), id@) == Some(
                v.deep_view(),
            ),
            None => get_asms_c(ast.deep_view().subrange(0, hi as int), id@) is None,
        },
{
    let ghost pre = ast.deep_view().subrange(0, hi as int);
    let mut i: usize = hi;
    proof {
        assert(pre.subrange(0, hi as int) =~= pre);
    }
    while i > 0
        invariant
            i <= hi,
            spec_lookup(pre, id@) == spec_lookup(pre.subrange(0, i as int), id@),
        decreases i,
    {
        i = i - 1;
        let found: bool = match &ast[i] {
            AST::Stat(Exp::Let(Variable::Var(vname, _, _), _)) => crate::ast::id_eq(
                vname.as_slice(),
                id,
            ),
            _ => false,
        };
        proof {
            assert(pre.subrange(0, i as int + 1).last() == pre[i as int]);
            assert(pre[i as int] == ast.deep_view()[i as int]);
            assert(pre.subrange(0, i as int + 1).drop_last() =~= pre.subrange(0, i as int));
        }
        if found {
            assert(spec_lookup(pre, id@) == Some(i as int));
            match &ast[i] {
                AST::Stat(Exp::Let(_, e)) => {
                    match get_consts(&**e) {
                        Some(v) => {
                            return Some(v);
                        },
                        None => {
                            return Some(Vec::new());
                        },
                    }
                },
                _ => {
                    return None;
                },
            }
        }
        assert(!crate::ast::is_let_of(pre[i as int], id@));
    }
    proof {
        assert(pre.subrange(0, 0) =~= Seq::<AstV>::empty());
    }
    None
}

/// The strings of a list of constants.
#[verifier::loop_isolation(false)]
fn unfold_asm(cs: Vec<Const>) -> (r: Vec<Vec<char>>)
    ensures
        r.deep_view() == strs_of(cs.deep_view()),
{
    let mut out: Vec<Vec<char>> = Vec::new();
    let mut i: usize = 0;
    while i < cs.len()
        invariant
            i <= cs@.len(),
            out@.len() == i,
            forall|k: int|
                0 <= k < i ==> out@[k].deep_view() == strs_of(cs.deep_view())[k],
        decreases cs@.len() - i,
    {
        match &cs[i] {
            Const::Asm(s, _, _) => {
                out.push(copy_chars(s.as_slice()));
            },
        }
        i = i + 1;
    }
    proof {
        assert(out.deep_view() =~= strs_of(cs.deep_view()));
    }
    out
}

} // verus!

verus! {

/// Whether `pat` occurs in `s` at position `j`.
#[verifier::loop_isolation(false)]
fn window_eq(s: &[char], j: usize, pat: &[char]) -> (r: bool)
    requires
        j + pat@.len() <= s@.len(),
        s@.len() <= usize::MAX,
    ensures
        r <==> s@.subrange(j as int, j as int + pat@.len()) == pat@,
{
    let mut q: usize = 0;
    while q < pat.len()
        invariant
            q <= pat@.len(),
            forall|k: int| 0 <= k < q ==> s@[j + k] == pat@[k],
        decreases pat@.len() - q,
    {
        if s[j + q] != pat[q] {
            proof {
                assert(s@.subrange(j as int, j as int + pat@.len())[q as int] != pat@[q as int]);
            }
            return false;
        }
        q = q + 1;
    }
    proof {
        assert(s@.subrange(j as int, j as int + pat@.len()) =~= pat@);
    }
    true
}

/// `s` with its first occurrence of `pat` replaced by `rep`.
#[verifier::loop_isolation(false)]
fn replacen(s: &[char], pat: &[char], rep: &[char]) -> (r: Vec<char>)
    requires
        pat@.len() >= 1,
    ensures
        r@ == replace_first(s@, pat@, rep@),
{
    let mut j: usize = 0;
    let mut found: bool = false;
    if pat.len() <= s.len() {
        while j <= s.len() - pat.len() && !found
            invariant
                j <= s@.len(),
                pat@.len() <= s@.len(),
                !found ==> find_at(s@, pat@, 0) == find_at(s@, pat@, j as int),
                found ==> find_at(s@, pat@, 0) == j as int && j + pat@.len() <= s@.len(),
            decreases s@.len() - j + (if found { 0int } else { 1int }),
        {
            if window_eq(s, j, pat) {
                found = true;
            } else {
                j = j + 1;
            }
        }
    }
    if !found {
        proof {
            if pat@.len() <= s@.len() {
                assert(find_at(s@, pat@, j as int) == -1);
            } else {
                assert(find_at(s@, pat@, 0) == -1);
            }
        }
        return crate::ast::copy_chars(s);
    }
    let mut out: Vec<char> = Vec::new();
    let mut q: usize = 0;
    while q < j
        invariant
            q <= j,
            j + pat@.len() <= s@.len(),
            out@ == s@.subrange(0, q as int),
        decreases j - q,
    {
        out.push(s[q]);
        proof {
            assert(out@ =~= s@.subrange(0, q as int + 1));
        }
        q = q + 1;
    }
    let mut q2: usize = 0;
    while q2 < rep.len()
        invariant
            q2 <= rep@.len(),
            j + pat@.len() <= s@.len(),
            out@ == s@.subrange(0, j as int) + rep@.subrange(0, q2 as int),
        decreases rep@.len() - q2,
    {
        out.push(rep[q2]);
        proof {
            assert(out@ =~= s@.subrange(0, j as int) + rep@.subrange(0, q2 as int + 1));
        }
        q2 = q2 + 1;
    }
    proof {
        assert(rep@.subrange(0, rep@.len() as int) =~= rep@);
    }
    let mut q3: usize = j + pat.len();
    while q3 < s.len()
        invariant
            j + pat@.len() <= q3 <= s@.len(),
            out@ == s@.subrange(0, j as int) + rep@ + s@.subrange(j + pat@.len(), q3 as int),
        decreases s@.len() - q3,
    {
        out.push(s[q3]);
        proof {
            assert(out@ =~= s@.subrange(0, j as int) + rep@ + s@.subrange(
                j + pat@.len(),
                q3 as int + 1,
            ));
        }
        q3 = q3 + 1;
    }
    proof {
        assert(s@.subrange(j + pat@.len(), s@.len() as int) =~= s@.skip(j + pat@.len()));
        assert(s@.subrange(j + pat@.len(), j + pat@.len()) =~= Seq::<char>::empty());
        assert(out@ =~= replace_first(s@, pat@, rep@));
    }
    out
}

/// A fresh copy of a tuple of strings.
fn copy_strs(v: &Vec<Vec<char>>) -> (r: Vec<Vec<char>>)
    ensures
        r.deep_view() == v.deep_view(),
{
    let mut out: Vec<Vec<char>> = Vec::new();
    let mut i: usize = 0;
    while i < v.len()
        invariant
            i <= v@.len(),
            out@.len() == i,
            forall|k: int| 0 <= k < i ==> out@[k].deep_view() == v@[k].deep_view(),
        decreases v@.len() - i,
    {
        out.push(copy_chars(v[i].as_slice()));
        i = i + 1;
    }
    proof {
        assert(out.deep_view() =~= v.deep_view());
    }
    out
}

/// Gathers the replacement sets and reference names of a string.
#[verifier::loop_isolation(false)]
fn refs(s: &[char], idxs: &Vec<usize>, ast: &[AST], hi: usize) -> (r: (
    Vec<Vec<Vec<char>>>,
    Vec<Vec<char>>,
))
    requires
        hi <= ast@.len(),
        idxs@.len() == at_list(s@).len(),
        forall|k: int| 0 <= k < idxs@.len() ==> idxs@[k] as int == at_list(s@)[k],
        forall|k: int| 0 <= k < idxs@.len() ==> idxs@[k] < s@.len(),
        s@.len() <= usize::MAX,
    ensures
        r.0.deep_view() == rvals_upto(
            s@,
            ast.deep_view().subrange(0, hi as int),
            at_list(s@),
            at_list(s@).len() as int,
        ),
        r.1.deep_view() == rnames_upto(
            s@,
            ast.deep_view().subrange(0, hi as int),
            at_list(s@),
            at_list(s@).len() as int,
        ),
{
    let ghost pre = ast.deep_view().subrange(0, hi as int);
    let ghost ixl = at_list(s@);
    let mut rv: Vec<Vec<Vec<char>>> = Vec::new();
    let mut rn: Vec<Vec<char>> = Vec::new();
    let mut k: usize = 0;
    while k < idxs.len()
        invariant
            k <= idxs@.len(),
            rv.deep_view() == rvals_upto(s@, pre, ixl, k as int),
            rn.deep_view() == rnames_upto(s@, pre, ixl, k as int),
        decreases idxs@.len() - k,
    {
        let rname = name_at(s, idxs[k]);
        match get_asms(rname.as_slice(), ast, hi) {
            Some(cs) => {
                let ghost rvd = rv.deep_view();
                let ghost rnd = rn.deep_view();
                let ghost csd = cs.deep_view();
                proof {
                    assert(rname@ == ref_name(s@, ixl[k as int]));
                    assert(get_asms_c(pre, rname@) == Some(csd));
                    assert(get_asms_s(pre, ref_name(s@, ixl[k as int])) == Some(strs_of(csd)));
                }
                let strs = unfold_asm(cs);
                proof {
                    assert(strs.deep_view() == strs_of(csd));
                }
                rv.push(strs);
                let mut nm: Vec<char> = Vec::new();
                nm.push('@');
                let mut rn_rest = rname;
                nm.append(&mut rn_rest);
                proof {
                    assert(nm@ =~= seq!['@'] + ref_name(s@, ixl[k as int]));
                    assert(rv.deep_view() =~= rvd.push(strs_of(csd)));
                }
                proof {
                    assert(nm.deep_view() =~= nm@);
                }
                let ghost nmv = nm@;
                rn.push(nm);
                proof {
                    assert(rn.deep_view() =~= rnd.push(nmv));
                }
            },
            None => {},
        }
        k = k + 1;
    }
    (rv, rn)
}

} // verus!

verus! {

/// A sequence of characters viewed deeply is itself.
proof fn lemma_chars_deep(v: Vec<char>)
    ensures
        v.deep_view() == v@,
{
    assert(v.deep_view() =~= v@);
}

/// Every collected reference name is `@`-prefixed and so non-empty.
proof fn lemma_rnames_len(s: Seq<char>, pre: Seq<AstV>, idxs: Seq<int>, k: int)
    requires
        0 <= k <= idxs.len(),
    ensures
        forall|w: int| 0 <= w < rnames_upto(s, pre, idxs, k).len() ==> #[trigger] rnames_upto(
            s,
            pre,
            idxs,
            k,
        )[w].len() >= 1,
    decreases k,
{
    if k > 0 {
        lemma_rnames_len(s, pre, idxs, k - 1);
        let prev = rnames_upto(s, pre, idxs, k - 1);
        let curr = rnames_upto(s, pre, idxs, k);
        assert forall|w: int| 0 <= w < curr.len() implies #[trigger] curr[w].len() >= 1 by {
            match get_asms_s(pre, ref_name(s, idxs[k - 1])) {
                Some(_) => {
                    if w < prev.len() {
                        assert(curr[w] == prev[w]);
                    } else {
                        assert(curr[w] == seq!['@'] + ref_name(s, idxs[k - 1]));
                    }
                },
                None => {
                    assert(curr[w] == prev[w]);
                },
            }
        }
    }
}

/// One row of the Cartesian product: one partial tuple, each choice.
#[verifier::loop_isolation(false)]
fn row(a: &Vec<Vec<char>>, arr: &Vec<Vec<char>>) -> (r: Vec<Vec<Vec<char>>>)
    ensures
        r.deep_view() == row_upto(a.deep_view(), arr.deep_view(), arr@.len() as int),
{
    let mut out: Vec<Vec<Vec<char>>> = Vec::new();
    let mut k: usize = 0;
    while k < arr.len()
        invariant
            k <= arr@.len(),
            out.deep_view() == row_upto(a.deep_view(), arr.deep_view(), k as int),
        decreases arr@.len() - k,
    {
        let ghost outd = out.deep_view();
        let mut tuple = copy_strs(a);
        tuple.push(copy_chars(arr[k].as_slice()));
        proof {
            lemma_chars_deep(arr@[k as int]);
            assert(tuple.deep_view() =~= a.deep_view().push(arr.deep_view()[k as int]));
        }
        let ghost td = tuple.deep_view();
        out.push(tuple);
        proof {
            assert(out.deep_view() =~= outd.push(td));
        }
        k = k + 1;
    }
    out
}

/// Extends every partial tuple of `acc` by every choice from `arr`.
#[verifier::loop_isolation(false)]
fn cross_step(acc: &Vec<Vec<Vec<char>>>, arr: &Vec<Vec<char>>) -> (r: Vec<Vec<Vec<char>>>)
    ensures
        r.deep_view() == cross_upto(acc.deep_view(), arr.deep_view(), acc@.len() as int),
{
    let mut out: Vec<Vec<Vec<char>>> = Vec::new();
    let mut k: usize = 0;
    while k < acc.len()
        invariant
            k <= acc@.len(),
            out.deep_view() == cross_upto(acc.deep_view(), arr.deep_view(), k as int),
        decreases acc@.len() - k,
    {
        let ghost outd = out.deep_view();
        let mut rowv = row(&acc[k], arr);
        let ghost rd = rowv.deep_view();
        out.append(&mut rowv);
        proof {
            assert(out.deep_view() =~= outd + rd);
        }
        k = k + 1;
    }
    out
}

/// The Cartesian product of the replacement sets.
#[verifier::loop_isolation(false)]
fn perm(arrays: Vec<Vec<Vec<char>>>) -> (r: Vec<Vec<Vec<char>>>)
    ensures
        r.deep_view() == cart(arrays.deep_view()),
{
    let mut acc: Vec<Vec<Vec<char>>> = Vec::new();
    acc.push(Vec::new());
    proof {
        assert(acc.deep_view() =~~= cart_upto(arrays.deep_view(), 0));
    }
    let mut j: usize = 0;
    while j < arrays.len()
        invariant
            j <= arrays@.len(),
            acc.deep_view() == cart_upto(arrays.deep_view(), j as int),
        decreases arrays@.len() - j,
    {
        acc = cross_step(&acc, &arrays[j]);
        j = j + 1;
    }
    acc
}

/// Every expansion of one assembly string against the rewritten prefix.
#[verifier::loop_isolation(false)]
fn expansions_exec(s: &[char], ast: &[AST], hi: usize) -> (r: Vec<Vec<char>>)
    requires
        hi <= ast@.len(),
        s@.len() <= usize::MAX,
    ensures
        r.deep_view() == expansions(ast.deep_view().subrange(0, hi as int), s@),
{
    let ghost pre = ast.deep_view().subrange(0, hi as int);
    let idxs = at_indices(s);
    if idxs.len() == 0 {
        let mut out: Vec<Vec<char>> = Vec::new();
        out.push(copy_chars(s));
        proof {
            assert(out.deep_view() =~~= seq![s@]);
        }
        return out;
    }
    let (rv, rn) = refs(s, &idxs, ast, hi);
    let ghost ns = rn.deep_view();
    let tups = perm(rv);
    let ghost tupsd = tups.deep_view();
    proof {
        lemma_rnames_len(s@, pre, at_list(s@), at_list(s@).len() as int);
    }
    let mut out: Vec<Vec<char>> = Vec::new();
    let mut q: usize = 0;
    while q < tups.len()
        invariant
            q <= tups@.len(),
            out.deep_view() == apply_all_upto(s@, ns, tupsd, q as int),
        decreases tups@.len() - q,
    {
        let ghost outd = out.deep_view();
        let tuple = &tups[q];
        proof {
            assert(tuple.deep_view() == tupsd[q as int]);
        }
        let mut cur = copy_chars(s);
        let n: usize = if rn.len() < tuple.len() {
            rn.len()
        } else {
            tuple.len()
        };
        let mut w: usize = 0;
        while w < n
            invariant
                w <= n,
                n <= rn@.len(),
                n <= tuple@.len(),
                ns == rn.deep_view(),
                forall|y: int| 0 <= y < ns.len() ==> #[trigger] ns[y].len() >= 1,
                tuple.deep_view() == tupsd[q as int],
                q < tups@.len(),
                cur@ == apply_upto(s@, ns, tupsd[q as int], w as int),
            decreases n - w,
        {
            proof {
                lemma_chars_deep(rn@[w as int]);
                lemma_chars_deep(tuple@[w as int]);
                assert(rn@[w as int].deep_view() == ns[w as int]);
                assert(rn@[w as int]@.len() >= 1);
            }
            let nxt = replacen(cur.as_slice(), rn[w].as_slice(), tuple[w].as_slice());
            cur = nxt;
            w = w + 1;
        }
        proof {
            assert(cur@ == apply_tuple(s@, ns, tupsd[q as int]));
        }
        let ghost curd = cur@;
        out.push(cur);
        proof {
            lemma_chars_deep(out@[out@.len() - 1]);
            assert(out.deep_view() =~= outd.push(curd));
        }
        q = q + 1;
    }
    proof {
        assert(out.deep_view() == apply_all_upto(s@, ns, tupsd, tupsd.len() as int));
    }
    out
}

} // verus!

verus! {

/// The expansions of one set element.
#[verifier::loop_isolation(false)]
fn expand_elem(c: &Const, ast: &[AST], hi: usize) -> (r: Vec<Const>)
    requires
        hi <= ast@.len(),
    ensures
        r.deep_view() == elem_exp(ast.deep_view().subrange(0, hi as int), c.deep_view()),
{
    let ghost pre = ast.deep_view().subrange(0, hi as int);
    match c {
        Const::Asm(s, p, ty) => {
            match *ty {
                Type::AsmType => {
                    let sn = s.len();
                    let es = expansions_exec(s.as_slice(), ast, hi);
                    let ghost esd = es.deep_view();
                    let mut out: Vec<Const> = Vec::new();
                    let mut q: usize = 0;
                    while q < es.len()
                        invariant
                            q <= es@.len(),
                            out@.len() == q,
                            forall|y: int|
                                0 <= y < q ==> out@[y].deep_view() == ConstV::Asm(
                                    esd[y],
                                    *p,
                                    Type::AsmType,
                                ),
                        decreases es@.len() - q,
                    {
                        proof {
                            lemma_chars_deep(es@[q as int]);
                        }
                        out.push(Const::Asm(copy_chars(es[q].as_slice()), *p, Type::AsmType));
                        q = q + 1;
                    }
                    proof {
                        assert(out.deep_view() =~= elem_exp(pre, c.deep_view()));
                    }
                    out
                },
                _ => {
                    let mut out: Vec<Const> = Vec::new();
                    out.push(copy_const(c));
                    proof {
                        assert(out.deep_view() =~= seq![c.deep_view()]);
                    }
                    out
                },
            }
        },
    }
}

/// The expansion of a whole gadget or array body.
#[verifier::loop_isolation(false)]
fn list(cs: &Vec<Const>, ast: &[AST], hi: usize) -> (r: Vec<Const>)
    requires
        hi <= ast@.len(),
    ensures
        r.deep_view() == expand_list(ast.deep_view().subrange(0, hi as int), cs.deep_view()),
{
    let ghost pre = ast.deep_view().subrange(0, hi as int);
    let ghost csd = cs.deep_view();
    let mut out: Vec<Const> = Vec::new();
    let mut i: usize = 0;
    while i < cs.len()
        invariant
            i <= cs@.len(),
            out.deep_view() == expand_upto(pre, csd, i as int),
        decreases cs@.len() - i,
    {
        let ghost outd = out.deep_view();
        let mut piece = expand_elem(&cs[i], ast, hi);
        let ghost pd = piece.deep_view();
        out.append(&mut piece);
        proof {
            assert(out.deep_view() =~= outd + pd);
            assert(cs@[i as int].deep_view() == csd[i as int]);
        }
        i = i + 1;
    }
    out
}

/// The rewritten right-hand side of a `let`.
#[verifier::loop_isolation(false)]
fn let_rw(e: &Exp, ast: &[AST], hi: usize) -> (r: Exp)
    requires
        hi <= ast@.len(),
    ensures
        r.deep_view() == rewrite_rhs(ast.deep_view().subrange(0, hi as int), e.deep_view()),
{
    let ghost pre = ast.deep_view().subrange(0, hi as int);
    match e {
        Exp::Gadget(g) => Exp::Gadget(list(g, ast, hi)),
        Exp::Array(a) => Exp::Array(list(a, ast, hi)),
        Exp::Constant(c) => {
            match c {
                Const::Asm(s, p, ty) => {
                    let sn = s.len();
                    let es = expansions_exec(s.as_slice(), ast, hi);
                    let ghost esd = es.deep_view();
                    let mut cur: Vec<char> = Vec::new();
                    let mut q: usize = 0;
                    while q < es.len()
                        invariant
                            q <= es@.len(),
                            cur@ == concat_upto(esd, q as int),
                        decreases es@.len() - q,
                    {
                        proof {
                            lemma_chars_deep(es@[q as int]);
                        }
                        let mut piece = copy_chars(es[q].as_slice());
                        cur.append(&mut piece);
                        q = q + 1;
                    }
                    Exp::Constant(Const::Asm(cur, *p, *ty))
                },
            }
        },
        _ => crate::ast::copy_exp(e),
    }
}

/// The pass output on a prefix has the prefix's length.
proof fn lemma_ir_upto_len(s: Seq<AstV>, i: int)
    requires
        0 <= i <= s.len(),
    ensures
        ir_upto(s, i).len() == i,
    decreases i,
{
    if i > 0 {
        lemma_ir_upto_len(s, i - 1);
    }
}

/// The rewritten statement at position `i`, against the statements
/// before it.
fn rewrite_stat_at(ast: &Vec<AST>, i: usize) -> (r: AST)
    requires
        i < ast@.len(),
    ensures
        r.deep_view() == rewrite_stat(
            ast.deep_view().subrange(0, i as int),
            ast.deep_view()[i as int],
        ),
{
    let ghost pre = ast.deep_view().subrange(0, i as int);
    match &ast[i] {
        AST::Stat(Exp::Gadget(g)) => AST::Stat(Exp::Gadget(list(g, ast.as_slice(), i))),
        AST::Stat(Exp::Let(v, rhs)) => AST::Stat(
            Exp::Let(copy_var(v), Box::new(let_rw(&**rhs, ast.as_slice(), i))),
        ),
        AST::Stat(other) => AST::Stat(crate::ast::copy_exp(other)),
    }
}

/// The reference-expansion pass: rewrites every statement in place,
/// resolving references against the already rewritten prefix.
#[verifier::loop_isolation(false)]
pub fn ir(ast: &mut Vec<AST>) -> (r: ())
    ensures
        final(ast).deep_view() == ir_spec(old(ast).deep_view()),
{
    let ghost orig = ast.deep_view();
    let mut i: usize = 0;
    while i < ast.len()
        invariant
            i <= ast@.len(),
            ast@.len() == orig.len(),
            forall|k: int| 0 <= k < i ==> #[trigger] ast@[k].deep_view() == ir_upto(orig, i as int)[k],
            forall|k: int| i <= k < orig.len() ==> #[trigger] ast@[k].deep_view() == orig[k],
        decreases ast@.len() - i,
    {
        proof {
            lemma_ir_upto_len(orig, i as int);
            assert(ast.deep_view().subrange(0, i as int) =~= ir_upto(orig, i as int));
            assert(ast.deep_view()[i as int] == orig[i as int]);
        }
        let rw = rewrite_stat_at(ast, i);
        ast.set(i, rw);
        proof {
            lemma_ir_upto_len(orig, i as int + 1);
            let next = ir_upto(orig, i as int + 1);
            assert(next == ir_upto(orig, i as int).push(
                rewrite_stat(ir_upto(orig, i as int), orig[i as int]),
            ));
            assert(forall|k: int|
                0 <= k < i ==> #[trigger] ast@[k].deep_view() == next[k]);
            assert(ast@[i as int].deep_view() == next[i as int]);
        }
        i = i + 1;
    }
    proof {
        lemma_ir_upto_len(orig, orig.len() as int);
        assert(ast.deep_view() =~= ir_upto(orig, orig.len() as int));
    }
}

} // verus!

verus! {

// ----- what a second pass does -----

/// The text of a constant.
pub open spec fn str_of(c: ConstV) -> Seq<char> {
    match c {
        ConstV::Asm(s, _, _) => s,
    }
}

/// Whether no reference of the string resolves against the prefix: the
/// pass finds nothing to substitute in it.
pub open spec fn no_live_refs_str(pre: Seq<AstV>, s: Seq<char>) -> bool {
    forall|k: int|
        0 <= k < at_list(s).len() ==> get_asms_s(
            pre,
            ref_name(s, #[trigger] at_list(s)[k]),
        ) is None
}

/// Whether no string of the statement holds a resolvable reference.
pub open spec fn stat_no_live_refs(pre: Seq<AstV>, st: AstV) -> bool {
    match st {
        AstV::Stat(e) => match e {
            ExpV::Gadget(g) => forall|i: int|
                0 <= i < g.len() ==> no_live_refs_str(pre, str_of(#[trigger] g[i])),
            ExpV::Array(a) => forall|i: int|
                0 <= i < a.len() ==> no_live_refs_str(pre, str_of(#[trigger] a[i])),
            ExpV::Constant(c) => no_live_refs_str(pre, str_of(c)),
            ExpV::Let(_, rhs) => match *rhs {
                ExpV::Gadget(g) => forall|i: int|
                    0 <= i < g.len() ==> no_live_refs_str(pre, str_of(#[trigger] g[i])),
                ExpV::Array(a) => forall|i: int|
                    0 <= i < a.len() ==> no_live_refs_str(pre, str_of(#[trigger] a[i])),
                ExpV::Constant(c) => no_live_refs_str(pre, str_of(c)),
                _ => true,
            },
            _ => true,
        },
    }
}

/// Whether no statement of the program holds a reference that resolves
/// against the statements before it.
pub open spec fn ast_no_live_refs(s: Seq<AstV>) -> bool {
    forall|i: int| 0 <= i < s.len() ==> stat_no_live_refs(s.subrange(0, i), #[trigger] s[i])
}

/// Unresolvable references collect no replacement sets and no names.
proof fn lemma_refs_empty(s: Seq<char>, pre: Seq<AstV>, idxs: Seq<int>, k: int)
    requires
        0 <= k <= idxs.len(),
        idxs == at_list(s),
        no_live_refs_str(pre, s),
    ensures
        rvals_upto(s, pre, idxs, k) == Seq::<Seq<Seq<char>>>::empty(),
        rnames_upto(s, pre, idxs, k) == Seq::<Seq<char>>::empty(),
    decreases k,
{
    if k > 0 {
        lemma_refs_empty(s, pre, idxs, k - 1);
        assert(get_asms_s(pre, ref_name(s, at_list(s)[k - 1])) is None);
    }
}

/// A string with no resolvable reference expands to itself alone.
proof fn lemma_expansions_id(pre: Seq<AstV>, s: Seq<char>)
    requires
        no_live_refs_str(pre, s),
    ensures
        expansions(pre, s) == seq![s],
{
    let idxs = at_list(s);
    if idxs.len() != 0 {
        lemma_refs_empty(s, pre, idxs, idxs.len() as int);
        let vs = rvals_upto(s, pre, idxs, idxs.len() as int);
        let ns = rnames_upto(s, pre, idxs, idxs.len() as int);
        assert(cart(vs) == cart_upto(vs, 0));
        assert(cart(vs) == seq![Seq::<Seq<char>>::empty()]);
        assert(cart(vs)[0] == Seq::<Seq<char>>::empty());
        assert(ns.len() == 0);
        assert(apply_upto(s, ns, cart(vs)[0], 0) == s);
        assert(apply_tuple(s, ns, cart(vs)[0]) == s);
        assert(apply_all_upto(s, ns, cart(vs), 0) == Seq::<Seq<char>>::empty());
        assert(apply_all_upto(s, ns, cart(vs), 1) == Seq::<Seq<char>>::empty().push(
            apply_tuple(s, ns, cart(vs)[0]),
        ));
        assert(Seq::<Seq<char>>::empty().push(s) =~= seq![s]);
    }
}

/// An element with no resolvable reference expands to itself alone.
proof fn lemma_elem_exp_id(pre: Seq<AstV>, c: ConstV)
    requires
        no_live_refs_str(pre, str_of(c)),
    ensures
        elem_exp(pre, c) == seq![c],
{
    match c {
        ConstV::Asm(s, p, ty) => {
            if ty == Type::AsmType {
                lemma_expansions_id(pre, s);
                assert(expansions(pre, s).map_values(
                    |s2: Seq<char>| ConstV::Asm(s2, p, Type::AsmType),
                ) =~= seq![c]);
            }
        },
    }
}

/// A set with no resolvable references expands to itself.
proof fn lemma_expand_id(pre: Seq<AstV>, cs: Seq<ConstV>, k: int)
    requires
        0 <= k <= cs.len(),
        forall|i: int| 0 <= i < cs.len() ==> no_live_refs_str(pre, str_of(#[trigger] cs[i])),
    ensures
        expand_upto(pre, cs, k) == cs.subrange(0, k),
    decreases k,
{
    if k > 0 {
        lemma_expand_id(pre, cs, k - 1);
        lemma_elem_exp_id(pre, cs[k - 1]);
        assert(cs.subrange(0, k - 1) + seq![cs[k - 1]] =~= cs.subrange(0, k));
    } else {
        assert(cs.subrange(0, 0) =~= Seq::<ConstV>::empty());
    }
}

/// A statement with no resolvable reference is rewritten to itself.
proof fn lemma_rewrite_id(pre: Seq<AstV>, st: AstV)
    requires
        stat_no_live_refs(pre, st),
    ensures
        rewrite_stat(pre, st) == st,
{
    match st {
        AstV::Stat(e) => match e {
            ExpV::Gadget(g) => {
                lemma_expand_id(pre, g, g.len() as int);
                assert(g.subrange(0, g.len() as int) =~= g);
            },
            ExpV::Let(v, rhs) => {
                match *rhs {
                    ExpV::Gadget(g) => {
                        lemma_expand_id(pre, g, g.len() as int);
                        assert(g.subrange(0, g.len() as int) =~= g);
                        assert(rewrite_rhs(pre, *rhs) == *rhs);
                    },
                    ExpV::Array(a) => {
                        lemma_expand_id(pre, a, a.len() as int);
                        assert(a.subrange(0, a.len() as int) =~= a);
                        assert(rewrite_rhs(pre, *rhs) == *rhs);
                    },
                    ExpV::Constant(c) => {
                        match c {
                            ConstV::Asm(s, p, ty) => {
                                lemma_expansions_id(pre, s);
                                assert(expansions(pre, s) == seq![s]);
                                assert(seq![s].len() == 1);
                                assert(concat_upto(seq![s], 0) == Seq::<char>::empty());
                                assert(seq![s][0] == s);
                                assert(concat_upto(seq![s], 1) == Seq::<char>::empty() + s);
                                assert(Seq::<char>::empty() + s =~= s);
                                assert(rewrite_rhs(pre, *rhs) == *rhs);
                            },
                        }
                    },
                    _ => {
                        assert(rewrite_rhs(pre, *rhs) == *rhs);
                    },
                }
                assert(AstV::Stat(ExpV::Let(v, Box::new(rewrite_rhs(pre, *rhs)))) == st);
            },
            _ => {},
        },
    }
}

/// LAW (identity without resolvable references): on a program none of
/// whose assembly strings holds a reference that resolves against the
/// statements before it, the pass changes nothing.
pub proof fn lemma_ir_identity(s: Seq<AstV>)
    requires
        ast_no_live_refs(s),
    ensures
        ir_spec(s) == s,
{
    lemma_ir_upto_id(s, s.len() as int);
    assert(s.subrange(0, s.len() as int) =~= s);
}

/// The identity holds prefix by prefix.
proof fn lemma_ir_upto_id(s: Seq<AstV>, i: int)
    requires
        ast_no_live_refs(s),
        0 <= i <= s.len(),
    ensures
        ir_upto(s, i) == s.subrange(0, i),
    decreases i,
{
    if i > 0 {
        lemma_ir_upto_id(s, i - 1);
        assert(stat_no_live_refs(s.subrange(0, i - 1), s[i - 1]));
        lemma_rewrite_id(ir_upto(s, i - 1), s[i - 1]);
        assert(s.subrange(0, i - 1).push(s[i - 1]) =~= s.subrange(0, i));
    } else {
        assert(s.subrange(0, 0) =~= Seq::<AstV>::empty());
    }
}

/// LAW (idempotence without resolvable references): on a program none
/// of whose assembly strings holds a reference that resolves against
/// the statements before it, a second pass equals one pass.
pub proof fn lemma_ir_idempotent(s: Seq<AstV>)
    requires
        ast_no_live_refs(s),
    ensures
        ir_spec(ir_spec(s)) == ir_spec(s),
{
    lemma_ir_identity(s);
}

} // verus!

verus! {

/// One rewritten statement keeps its shape.
proof fn lemma_rewrite_shaped(pre: Seq<AstV>, st: AstV)
    requires
        crate::ast::stat_shaped(st),
    ensures
        crate::ast::stat_shaped(rewrite_stat(pre, st)),
{
    match st {
        AstV::Stat(e) => match e {
            ExpV::Let(v, rhs) => {
                assert(crate::ast::rhs_shaped(rewrite_rhs(pre, *rhs)));
            },
            _ => {},
        },
    }
}

/// The pass keeps every statement a gadget, a call, or a shaped `let`:
/// what the type checker asks of its input still holds after the pass.
pub proof fn lemma_ir_shaped(s: Seq<AstV>)
    requires
        crate::ast::stats_shaped(s),
    ensures
        crate::ast::stats_shaped(ir_spec(s)),
{
    lemma_ir_upto_shaped(s, s.len() as int);
}

/// Shape preservation, prefix by prefix.
proof fn lemma_ir_upto_shaped(s: Seq<AstV>, i: int)
    requires
        crate::ast::stats_shaped(s),
        0 <= i <= s.len(),
    ensures
        crate::ast::stats_shaped(ir_upto(s, i)),
    decreases i,
{
    if i > 0 {
        lemma_ir_upto_shaped(s, i - 1);
        lemma_ir_upto_len(s, i - 1);
        let d = ir_upto(s, i - 1);
        lemma_rewrite_shaped(d, s[i - 1]);
        assert forall|k: int|
            0 <= k < ir_upto(s, i).len() implies crate::ast::stat_shaped(
            #[trigger] ir_upto(s, i)[k],
        ) by {
            if k < d.len() {
                assert(ir_upto(s, i)[k] == d[k]);
            } else {
                assert(ir_upto(s, i)[k] == rewrite_stat(d, s[i - 1]));
            }
        }
    }
}

} // verus!
