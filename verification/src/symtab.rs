//! The symbol table: named entries with their declared types.

use vstd::prelude::*;
use crate::ast::{Id, Type, copy_chars};

verus! {

/// One symbol-table entry: a name and its type.
#[derive(Clone, Debug, PartialEq)]
pub enum SymTab {
    Entry(Id, Type),
}

/// Model of a `SymTab` entry.
pub enum SymTabV {
    Entry(Seq<char>, Type),
}

impl DeepView for SymTab {
    type V = SymTabV;

    open spec fn deep_view(&self) -> SymTabV {
        match self {
            SymTab::Entry(id, ty) => SymTabV::Entry(id@, *ty),
        }
    }
}

/// The index of the first entry named `id`, scanning forward.
pub open spec fn sym_index(s: Seq<SymTabV>, id: Seq<char>, j: int) -> Option<int>
    decreases s.len() - j,
    when j >= 0
{
    if j >= s.len() {
        None
    } else if s[j] matches SymTabV::Entry(n, _) && n == id {
        Some(j)
    } else {
        sym_index(s, id, j + 1)
    }
}

/// The first entry of the table named `id_in`, if any.
#[verifier::loop_isolation(false)]
pub fn lookup(symtab: Vec<SymTab>, id_in: Id) -> (r: Option<SymTab>)
    ensures
        match r {
            Some(e) => sym_index(symtab.deep_view(), id_in@, 0) matches Some(j) && e.deep_view()
                == symtab.deep_view()[j],
            None => sym_index(symtab.deep_view(), id_in@, 0) is None,
        },
{
    let ghost sv = symtab.deep_view();
    let mut i: usize = 0;
    while i < symtab.len()
        invariant
            i <= symtab@.len(),
            sym_index(sv, id_in@, 0) == sym_index(sv, id_in@, i as int),
        decreases symtab@.len() - i,
    {
        match &symtab[i] {
            SymTab::Entry(id, ty) => {
                if crate::ast::id_eq(id.as_slice(), id_in.as_slice()) {
                    return Some(SymTab::Entry(copy_chars(id.as_slice()), *ty));
                }
            },
        }
        i = i + 1;
    }
    None
}

} // verus!
