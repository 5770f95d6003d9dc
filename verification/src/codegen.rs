//! The code generator: each gadget's candidates are matched against the
//! binary's executable section, and the found addresses are formatted
//! into the payload.

use vstd::prelude::*;
use crate::ast::{AST, AstV, Const, ConstV, Exp, ExpV, Pos, Variable, VarV};
use crate::ast::{copy_chars};
use object::{Object, ObjectSection};

verus! {

/// The address width the payload is padded to.
#[derive(Clone, Copy, Debug, PartialEq, Eq, Structural)]
pub enum BitWidth {
    BitComputing16,
    BitComputing32,
    BitComputing64,
    BitComputingNone,
}

/// The number of hexadecimal digits a width asks for.
pub open spec fn width_of(bw: BitWidth) -> Option<int> {
    match bw {
        BitWidth::BitComputing16 => Some(4),
        BitWidth::BitComputing32 => Some(8),
        BitWidth::BitComputing64 => Some(16),
        BitWidth::BitComputingNone => None,
    }
}

/// What the assembler returned for one candidate: its machine bytes, or
/// the diagnostic text of its failure.
#[derive(Clone, Debug, PartialEq)]
pub enum AsmOutcome {
    Bytes(Vec<u8>),
    Failed(Vec<char>),
}

/// Model of an `AsmOutcome`.
pub enum AsmOutcomeV {
    Bytes(Seq<u8>),
    Failed(Seq<char>),
}

impl DeepView for AsmOutcome {
    type V = AsmOutcomeV;

    open spec fn deep_view(&self) -> AsmOutcomeV {
        match self {
            AsmOutcome::Bytes(b) => AsmOutcomeV::Bytes(b@),
            AsmOutcome::Failed(d) => AsmOutcomeV::Failed(d@),
        }
    }
}

/// One disassembled instruction: its address and its machine bytes.
#[derive(Clone, Debug, PartialEq)]
pub struct InsnRec {
    pub addr: u64,
    pub bytes: Vec<u8>,
}

impl DeepView for InsnRec {
    type V = (u64, Seq<u8>);

    open spec fn deep_view(&self) -> (u64, Seq<u8>) {
        (self.addr, self.bytes@)
    }
}

/// A code-generation error.
#[derive(Clone, Debug, PartialEq)]
pub enum CgErr {
    /// The chosen CPU mode has no disassembler support.
    NotSupported,
    /// The binary could not be parsed as an object file.
    ObjParse,
    /// The binary is big-endian.
    BigEndian,
    /// No executable section was found.
    NoSection,
    /// The section could not be disassembled.
    DisasmFailed,
    /// A candidate failed to assemble: its position, text and the
    /// assembler's diagnostic.
    AsmFailed(Pos, Vec<char>, Vec<char>),
    /// No candidate of a gadget was found: all candidates, verbatim.
    NoGadget(Vec<Vec<char>>),
    /// The section's addresses do not fit the address space.
    AddrRange,
}

/// Model of a `CgErr`.
pub enum CgErrV {
    NotSupported,
    ObjParse,
    BigEndian,
    NoSection,
    DisasmFailed,
    AsmFailed(Pos, Seq<char>, Seq<char>),
    NoGadget(Seq<Seq<char>>),
    AddrRange,
}

impl DeepView for CgErr {
    type V = CgErrV;

    open spec fn deep_view(&self) -> CgErrV {
        match self {
            CgErr::NotSupported => CgErrV::NotSupported,
            CgErr::ObjParse => CgErrV::ObjParse,
            CgErr::BigEndian => CgErrV::BigEndian,
            CgErr::NoSection => CgErrV::NoSection,
            CgErr::DisasmFailed => CgErrV::DisasmFailed,
            CgErr::AsmFailed(p, t, d) => CgErrV::AsmFailed(*p, t@, d@),
            CgErr::NoGadget(cs) => CgErrV::NoGadget(cs.deep_view()),
            CgErr::AddrRange => CgErrV::AddrRange,
        }
    }
}

// ----- hexadecimal rendering -----

/// The lowercase hexadecimal digit of a value below sixteen.
pub open spec fn hex_digit(d: int) -> char {
    if d == 0 {
        '0'
    } else if d == 1 {
        '1'
    } else if d == 2 {
        '2'
    } else if d == 3 {
        '3'
    } else if d == 4 {
        '4'
    } else if d == 5 {
        '5'
    } else if d == 6 {
        '6'
    } else if d == 7 {
        '7'
    } else if d == 8 {
        '8'
    } else if d == 9 {
        '9'
    } else if d == 10 {
        'a'
    } else if d == 11 {
        'b'
    } else if d == 12 {
        'c'
    } else if d == 13 {
        'd'
    } else if d == 14 {
        'e'
    } else {
        'f'
    }
}

/// The lowercase hexadecimal rendering of `a`, without leading zeros.
pub open spec fn spec_hex(a: int) -> Seq<char>
    decreases a,
    when a >= 0
{
    if a < 16 {
        seq![hex_digit(a)]
    } else {
        spec_hex(a / 16).push(hex_digit(a % 16))
    }
}

/// Executable form of `hex_digit`.
fn hex_digit_of(d: u64) -> (c: char)
    requires
        d < 16,
    ensures
        c == hex_digit(d as int),
{
    if d == 0 {
        '0'
    } else if d == 1 {
        '1'
    } else if d == 2 {
        '2'
    } else if d == 3 {
        '3'
    } else if d == 4 {
        '4'
    } else if d == 5 {
        '5'
    } else if d == 6 {
        '6'
    } else if d == 7 {
        '7'
    } else if d == 8 {
        '8'
    } else if d == 9 {
        '9'
    } else if d == 10 {
        'a'
    } else if d == 11 {
        'b'
    } else if d == 12 {
        'c'
    } else if d == 13 {
        'd'
    } else if d == 14 {
        'e'
    } else {
        'f'
    }
}

/// Renders an address as lowercase hexadecimal text.
pub fn hexafy(x: u64) -> (r: Vec<char>)
    ensures
        r@ == spec_hex(x as int),
    decreases x,
{
    if x < 16 {
        let mut r: Vec<char> = Vec::new();
        r.push(hex_digit_of(x));
        proof {
            assert(r@ =~= seq![hex_digit(x as int)]);
        }
        r
    } else {
        let mut r = hexafy(x / 16);
        r.push(hex_digit_of(x % 16));
        r
    }
}

// ----- byte-order alignment -----

/// The hex digits paired into bytes and the byte order reversed.
pub open spec fn rev_pairs(s: Seq<char>) -> Seq<char>
    decreases s.len(),
{
    if s.len() == 0 {
        Seq::empty()
    } else if s.len() == 1 {
        s
    } else {
        rev_pairs(s.skip(2)) + s.take(2)
    }
}

/// The byte-order adjustment: on request, the string is padded on the
/// left to even length and its digit pairs are reversed.
pub open spec fn spec_align(s: Seq<char>, byteorder: bool) -> Seq<char> {
    if byteorder {
        if s.len() % 2 == 0 {
            rev_pairs(s)
        } else {
            rev_pairs(seq!['0'] + s)
        }
    } else {
        s
    }
}

/// Reverses the digit pairs of `s` from index `j` on.
#[verifier::loop_isolation(false)]
fn rev_pairs_from(s: &[char], j: usize) -> (r: Vec<char>)
    requires
        j <= s@.len(),
    ensures
        r@ == rev_pairs(s@.skip(j as int)),
    decreases s@.len() - j,
{
    let n = s.len();
    if n - j == 0 {
        let r: Vec<char> = Vec::new();
        proof {
            assert(s@.skip(j as int) =~= Seq::<char>::empty());
        }
        r
    } else if n - j == 1 {
        let mut r: Vec<char> = Vec::new();
        r.push(s[j]);
        proof {
            assert(r@ =~= s@.skip(j as int));
        }
        r
    } else {
        let mut r = rev_pairs_from(s, j + 2);
        r.push(s[j]);
        r.push(s[j + 1]);
        proof {
            assert(s@.skip(j as int).skip(2) =~= s@.skip(j as int + 2));
            assert(r@ =~= rev_pairs(s@.skip(j as int)));
        }
        r
    }
}

/// Applies the optional byte-order adjustment.
pub fn align_byteorder(addr: Vec<char>, byteorder: bool) -> (r: Vec<char>)
    ensures
        r@ == spec_align(addr@, byteorder),
{
    if !byteorder {
        return addr;
    }
    if addr.len() % 2 == 0 {
        let r = rev_pairs_from(addr.as_slice(), 0);
        proof {
            assert(addr@.skip(0) =~= addr@);
        }
        r
    } else {
        let mut padded: Vec<char> = Vec::new();
        padded.push('0');
        let mut rest = addr;
        padded.append(&mut rest);
        proof {
            assert(padded@.skip(0) =~= padded@);
        }
        rev_pairs_from(padded.as_slice(), 0)
    }
}

/// LAW: on even-length hex strings the byte-order toggle is an
/// involution: applying it twice gives the string back.
pub proof fn lemma_byteorder_involution(s: Seq<char>)
    requires
        s.len() % 2 == 0,
    ensures
        spec_align(spec_align(s, true), true) == s,
{
    lemma_rev_pairs_len(s);
    lemma_rev_pairs_involution(s);
}

/// Pair reversal keeps the length.
proof fn lemma_rev_pairs_len(s: Seq<char>)
    ensures
        rev_pairs(s).len() == s.len(),
    decreases s.len(),
{
    if s.len() >= 2 {
        lemma_rev_pairs_len(s.skip(2));
    }
}

/// Pair reversal of an even-length string undoes itself.
proof fn lemma_rev_pairs_involution(s: Seq<char>)
    requires
        s.len() % 2 == 0,
    ensures
        rev_pairs(rev_pairs(s)) == s,
    decreases s.len(),
{
    if s.len() >= 2 {
        let tail = s.skip(2);
        lemma_rev_pairs_involution(tail);
        lemma_rev_pairs_len(tail);
        lemma_rev_pairs_snoc(rev_pairs(tail), s.take(2));
        assert(rev_pairs(s) == rev_pairs(tail) + s.take(2));
        assert(rev_pairs(rev_pairs(tail) + s.take(2)) == s.take(2) + rev_pairs(rev_pairs(tail)));
        assert(s.take(2) + tail =~= s);
    }
}

/// Appending one digit pair to an even-length string moves it to the
/// front of the pair reversal.
proof fn lemma_rev_pairs_snoc(a: Seq<char>, p: Seq<char>)
    requires
        a.len() % 2 == 0,
        p.len() == 2,
    ensures
        rev_pairs(a + p) == p + rev_pairs(a),
    decreases a.len(),
{
    if a.len() == 0 {
        assert(a + p =~= p);
        assert((a + p).skip(2) =~= Seq::<char>::empty());
        assert((a + p).take(2) =~= p);
        assert(rev_pairs(a + p) == rev_pairs((a + p).skip(2)) + (a + p).take(2));
        assert(rev_pairs((a + p).skip(2)) == Seq::<char>::empty());
        assert(Seq::<char>::empty() + p =~= p);
        assert(rev_pairs(a) == Seq::<char>::empty());
        assert(p + rev_pairs(a) =~= p);
    } else {
        assert(a.len() >= 2);
        lemma_rev_pairs_snoc(a.skip(2), p);
        assert((a + p).skip(2) =~= a.skip(2) + p);
        assert((a + p).take(2) =~= a.take(2));
        assert(rev_pairs(a + p) == rev_pairs(a.skip(2) + p) + a.take(2));
        assert(rev_pairs(a.skip(2) + p) == p + rev_pairs(a.skip(2)));
        assert((p + rev_pairs(a.skip(2))) + a.take(2) =~= p + (rev_pairs(a.skip(2)) + a.take(2)));
    }
}

// ----- width padding -----

/// A run of `n` zero digits.
pub open spec fn zeros(n: int) -> Seq<char>
    decreases n,
    when n >= 0
{
    if n <= 0 {
        Seq::empty()
    } else {
        zeros(n - 1).push('0')
    }
}

/// The payload form of one address: padded on the right with zeros up
/// to the requested width.
pub open spec fn spec_pack(s: Seq<char>, bw: BitWidth) -> Seq<char> {
    match width_of(bw) {
        None => s,
        Some(w) => if s.len() >= w {
            s
        } else {
            s + zeros(w - s.len())
        },
    }
}

/// Pads an address with trailing zeros to the requested width.
#[verifier::loop_isolation(false)]
pub fn pack(addr: Vec<char>, bitwidth: BitWidth) -> (r: Vec<char>)
    ensures
        r@ == spec_pack(addr@, bitwidth),
{
    let w: usize = match bitwidth {
        BitWidth::BitComputing16 => 4,
        BitWidth::BitComputing32 => 8,
        BitWidth::BitComputing64 => 16,
        BitWidth::BitComputingNone => {
            return addr;
        },
    };
    let mut r = addr;
    let ghost s0 = r@;
    proof {
        assert(r@ =~= s0 + zeros(0));
    }
    while r.len() < w
        invariant
            s0.len() <= r@.len(),
            r@.len() <= w || r@.len() == s0.len(),
            r@ == s0 + zeros(r@.len() - s0.len()),
        decreases w - r@.len(),
    {
        proof {
            assert((s0 + zeros(r@.len() - s0.len())).push('0') =~= s0 + zeros(
                r@.len() + 1 - s0.len(),
            ));
        }
        r.push('0');
    }
    proof {
        if s0.len() >= w {
            assert(r@.len() == s0.len());
            assert(zeros(0) =~= Seq::<char>::empty());
            assert(r@ =~= s0);
        } else {
            assert(r@.len() == w);
        }
    }
    r
}

/// The formatted contribution of one matched gadget to the payload.
pub open spec fn spec_subst(
    addr: u64,
    cand: Seq<char>,
    bw: BitWidth,
    byteorder: bool,
    outind: bool,
) -> Seq<char> {
    let p = spec_pack(spec_align(spec_hex(addr as int), byteorder), bw);
    if outind {
        cand + seq!['\n'] + p + seq!['\n']
    } else {
        p
    }
}

/// Formats one matched address, echoing the candidate when individual
/// output is requested.
pub fn subst_gadget(
    addr: u64,
    cand: &[char],
    bitwidth: BitWidth,
    byteorder: bool,
    outind: bool,
) -> (r: Vec<char>)
    ensures
        r@ == spec_subst(addr, cand@, bitwidth, byteorder, outind),
{
    let hex = hexafy(addr);
    let packed = pack(align_byteorder(hex, byteorder), bitwidth);
    if outind {
        let mut out = copy_chars(cand);
        out.push('\n');
        let mut p2 = packed;
        out.append(&mut p2);
        out.push('\n');
        proof {
            assert(out@ =~= spec_subst(addr, cand@, bitwidth, byteorder, outind));
        }
        out
    } else {
        packed
    }
}

} // verus!

verus! {

// ----- searching the executable section -----

/// The first index at or after `j` where `pat` occurs in `h`, or `-1`.
pub open spec fn find_u8(h: Seq<u8>, pat: Seq<u8>, j: int) -> int
    decreases h.len() - j,
    when j >= 0 && pat.len() >= 1
{
    if j + pat.len() > h.len() {
        -1
    } else if h.subrange(j, j + pat.len()) == pat {
        j
    } else {
        find_u8(h, pat, j + 1)
    }
}

/// The first occurrence of `pat` in `h`; an empty needle matches at 0.
pub open spec fn first_occ(h: Seq<u8>, pat: Seq<u8>) -> Option<int> {
    if pat.len() == 0 {
        Some(0)
    } else {
        let j = find_u8(h, pat, 0);
        if j < 0 {
            None
        } else {
            Some(j)
        }
    }
}

/// Whether `pat` occurs in `h` at position `k`.
pub open spec fn is_match(h: Seq<u8>, pat: Seq<u8>, k: int) -> bool {
    0 <= k && k + pat.len() <= h.len() && h.subrange(k, k + pat.len()) == pat
}

/// What `find_u8` finds from `j` on: an occurrence, the first one.
proof fn lemma_find_u8(h: Seq<u8>, pat: Seq<u8>, j: int)
    requires
        j >= 0,
        pat.len() >= 1,
    ensures
        find_u8(h, pat, j) >= 0 ==> is_match(h, pat, find_u8(h, pat, j)) && (forall|k: int|
            j <= k < find_u8(h, pat, j) ==> !is_match(h, pat, k)),
        find_u8(h, pat, j) < 0 ==> forall|k: int| j <= k ==> !is_match(h, pat, k),
    decreases h.len() - j,
{
    if j + pat.len() > h.len() {
    } else if h.subrange(j, j + pat.len()) == pat {
    } else {
        lemma_find_u8(h, pat, j + 1);
    }
}

/// Finds the first occurrence of `pat` in `h`.
#[verifier::loop_isolation(false)]
fn find_sub(h: &[u8], pat: &[u8]) -> (r: Option<usize>)
    ensures
        match r {
            Some(k) => first_occ(h@, pat@) == Some(k as int),
            None => first_occ(h@, pat@) is None,
        },
{
    if pat.len() == 0 {
        return Some(0);
    }
    if pat.len() > h.len() {
        proof {
            assert(find_u8(h@, pat@, 0) == -1);
        }
        return None;
    }
    let mut j: usize = 0;
    loop
        invariant
            j + pat@.len() <= h@.len(),
            pat@.len() >= 1,
            find_u8(h@, pat@, 0) == find_u8(h@, pat@, j as int),
        decreases h@.len() - j,
    {
        let mut q: usize = 0;
        let mut eq: bool = true;
        while q < pat.len()
            invariant
                q <= pat@.len(),
                j + pat@.len() <= h@.len(),
                eq ==> forall|y: int| 0 <= y < q ==> h@[j + y] == pat@[y],
                !eq ==> h@.subrange(j as int, j + pat@.len()) != pat@,
            decreases pat@.len() - q,
        {
            if h[j + q] != pat[q] {
                proof {
                    assert(h@.subrange(j as int, j + pat@.len())[q as int] != pat@[q as int]);
                }
                eq = false;
                q = pat.len();
            } else {
                q = q + 1;
            }
        }
        if eq {
            proof {
                assert(h@.subrange(j as int, j + pat@.len()) =~= pat@);
            }
            return Some(j);
        }
        if j + pat.len() == h.len() {
            proof {
                assert(find_u8(h@, pat@, j as int + 1) == -1);
            }
            return None;
        }
        j = j + 1;
    }
}

/// The name and position of a candidate.
pub open spec fn str_of_c(c: ConstV) -> Seq<char> {
    match c {
        ConstV::Asm(s, _, _) => s,
    }
}

/// The position of a candidate.
pub open spec fn pos_of_c(c: ConstV) -> Pos {
    match c {
        ConstV::Asm(_, p, _) => p,
    }
}

/// The candidates' strings, for the search-failure report.
pub open spec fn cand_strs(g: Seq<ConstV>) -> Seq<Seq<char>> {
    g.map_values(|c: ConstV| str_of_c(c))
}

/// The byte-wise search outcome from candidate `k` on: the first
/// candidate with an occurrence wins; a candidate that failed to
/// assemble aborts; none left reports all candidates.
pub open spec fn spec_bytewise(
    g: Seq<ConstV>,
    outs: Seq<AsmOutcomeV>,
    ops: Seq<u8>,
    base: u64,
    k: int,
) -> Result<(u64, int), CgErrV>
    decreases g.len() - k,
    when 0 <= k && outs.len() == g.len()
{
    if k >= g.len() {
        Err(CgErrV::NoGadget(cand_strs(g)))
    } else {
        match outs[k] {
            AsmOutcomeV::Failed(d) => Err(CgErrV::AsmFailed(pos_of_c(g[k]), str_of_c(g[k]), d)),
            AsmOutcomeV::Bytes(b) => match first_occ(ops, b) {
                Some(off) => Ok(((base + off) as u64, k)),
                None => spec_bytewise(g, outs, ops, base, k + 1),
            },
        }
    }
}

/// Byte-wise search: each candidate's bytes are sought in the section;
/// the first match wins. The matched address points at exactly the
/// candidate's bytes inside the section.
#[verifier::loop_isolation(false)]
pub fn bytewise_search(g: &Vec<Const>, outs: &Vec<AsmOutcome>, opcodes: &[u8], addr_offs: u64) -> (r:
    Result<(u64, usize), CgErr>)
    requires
        outs@.len() == g@.len(),
        addr_offs + opcodes@.len() <= u64::MAX,
    ensures
        match r {
            Ok(p) => spec_bytewise(g.deep_view(), outs.deep_view(), opcodes@, addr_offs, 0) == Ok::<
                (u64, int),
                CgErrV,
            >((p.0, p.1 as int)),
            Err(e) => spec_bytewise(g.deep_view(), outs.deep_view(), opcodes@, addr_offs, 0)
                == Err::<(u64, int), CgErrV>(e.deep_view()),
        },
        r matches Ok(p) ==> p.1 < outs@.len() && (outs.deep_view()[p.1 as int]
            matches AsmOutcomeV::Bytes(b) && addr_offs <= p.0 && p.0 - addr_offs + b.len()
            <= opcodes@.len() && opcodes@.subrange(
            p.0 - addr_offs,
            p.0 - addr_offs + b.len(),
        ) == b),
{
    let ghost gv = g.deep_view();
    let ghost ov = outs.deep_view();
    let mut k: usize = 0;
    while k < g.len()
        invariant
            k <= g@.len(),
            spec_bytewise(gv, ov, opcodes@, addr_offs, 0) == spec_bytewise(
                gv,
                ov,
                opcodes@,
                addr_offs,
                k as int,
            ),
        decreases g@.len() - k,
    {
        match &outs[k] {
            AsmOutcome::Failed(d) => {
                match &g[k] {
                    Const::Asm(s, p, _) => {
                        return Err(
                            CgErr::AsmFailed(*p, copy_chars(s.as_slice()), copy_chars(d.as_slice())),
                        );
                    },
                }
            },
            AsmOutcome::Bytes(b) => {
                match find_sub(opcodes, b.as_slice()) {
                    Some(off) => {
                        proof {
                            if b@.len() >= 1 {
                                lemma_find_u8(opcodes@, b@, 0);
                            }
                            assert(is_match(opcodes@, b@, off as int) || b@.len() == 0);
                        }
                        return Ok((addr_offs + off as u64, k));
                    },
                    None => {},
                }
            },
        }
        k = k + 1;
    }
    let mut all: Vec<Vec<char>> = Vec::new();
    let mut q: usize = 0;
    while q < g.len()
        invariant
            q <= g@.len(),
            all@.len() == q,
            forall|y: int| 0 <= y < q ==> all@[y].deep_view() == cand_strs(gv)[y],
        decreases g@.len() - q,
    {
        match &g[q] {
            Const::Asm(s, _, _) => {
                all.push(copy_chars(s.as_slice()));
            },
        }
        q = q + 1;
    }
    proof {
        assert(all.deep_view() =~= cand_strs(gv));
    }
    Err(CgErr::NoGadget(all))
}

/// The index of the first instruction whose bytes equal `b`, from `j` on.
pub open spec fn insn_find(insns: Seq<(u64, Seq<u8>)>, b: Seq<u8>, j: int) -> Option<int>
    decreases insns.len() - j,
    when j >= 0
{
    if j >= insns.len() {
        None
    } else if insns[j].1 == b {
        Some(j)
    } else {
        insn_find(insns, b, j + 1)
    }
}

/// Finds the first disassembled instruction with exactly the bytes `b`.
#[verifier::loop_isolation(false)]
fn find_insn(insns: &Vec<InsnRec>, b: &[u8]) -> (r: Option<usize>)
    ensures
        match r {
            Some(j) => insn_find(insns.deep_view(), b@, 0) == Some(j as int) && j < insns@.len()
                && insns@[j as int].bytes@ == b@,
            None => insn_find(insns.deep_view(), b@, 0) is None,
        },
{
    let ghost iv = insns.deep_view();
    let mut j: usize = 0;
    while j < insns.len()
        invariant
            j <= insns@.len(),
            insn_find(iv, b@, 0) == insn_find(iv, b@, j as int),
        decreases insns@.len() - j,
    {
        if crate::ast::id_eq_u8(insns[j].bytes.as_slice(), b) {
            proof {
                assert(iv[j as int].1 == b@);
            }
            return Some(j);
        }
        proof {
            assert(iv[j as int].1 != b@);
        }
        j = j + 1;
    }
    None
}

/// The mnemonic-wise search outcome from candidate `k` on.
pub open spec fn spec_mnem(
    g: Seq<ConstV>,
    outs: Seq<AsmOutcomeV>,
    insns: Seq<(u64, Seq<u8>)>,
    k: int,
) -> Result<(u64, int), CgErrV>
    decreases g.len() - k,
    when 0 <= k && outs.len() == g.len()
{
    if k >= g.len() {
        Err(CgErrV::NoGadget(cand_strs(g)))
    } else {
        match outs[k] {
            AsmOutcomeV::Failed(d) => Err(CgErrV::AsmFailed(pos_of_c(g[k]), str_of_c(g[k]), d)),
            AsmOutcomeV::Bytes(b) => match insn_find(insns, b, 0) {
                Some(j) => Ok((insns[j].0, k)),
                None => spec_mnem(g, outs, insns, k + 1),
            },
        }
    }
}

/// Mnemonic-wise search: the first candidate whose bytes equal some
/// disassembled instruction's bytes wins, at that instruction's address.
#[verifier::loop_isolation(false)]
pub fn mnemonicwise_search(g: &Vec<Const>, outs: &Vec<AsmOutcome>, insns: &Vec<InsnRec>) -> (r:
    Result<(u64, usize), CgErr>)
    requires
        outs@.len() == g@.len(),
    ensures
        match r {
            Ok(p) => spec_mnem(g.deep_view(), outs.deep_view(), insns.deep_view(), 0) == Ok::<
                (u64, int),
                CgErrV,
            >((p.0, p.1 as int)),
            Err(e) => spec_mnem(g.deep_view(), outs.deep_view(), insns.deep_view(), 0) == Err::<
                (u64, int),
                CgErrV,
            >(e.deep_view()),
        },
        r matches Ok(p) ==> p.1 < outs@.len() && (outs.deep_view()[p.1 as int]
            matches AsmOutcomeV::Bytes(b) && (exists|j: int|
            0 <= j < insns.deep_view().len() && #[trigger] insns.deep_view()[j].1 == b
                && insns.deep_view()[j].0 == p.0)),
{
    let ghost gv = g.deep_view();
    let ghost ov = outs.deep_view();
    let ghost iv = insns.deep_view();
    let mut k: usize = 0;
    while k < g.len()
        invariant
            k <= g@.len(),
            spec_mnem(gv, ov, iv, 0) == spec_mnem(gv, ov, iv, k as int),
        decreases g@.len() - k,
    {
        match &outs[k] {
            AsmOutcome::Failed(d) => {
                match &g[k] {
                    Const::Asm(s, p, _) => {
                        return Err(
                            CgErr::AsmFailed(*p, copy_chars(s.as_slice()), copy_chars(d.as_slice())),
                        );
                    },
                }
            },
            AsmOutcome::Bytes(b) => {
                match find_insn(insns, b.as_slice()) {
                    Some(j) => {
                        proof {
                            lemma_insn_find(iv, b@, 0);
                        }
                        return Ok((insns[j].addr, k));
                    },
                    None => {},
                }
            },
        }
        k = k + 1;
    }
    let mut all: Vec<Vec<char>> = Vec::new();
    let mut q: usize = 0;
    while q < g.len()
        invariant
            q <= g@.len(),
            all@.len() == q,
            forall|y: int| 0 <= y < q ==> all@[y].deep_view() == cand_strs(gv)[y],
        decreases g@.len() - q,
    {
        match &g[q] {
            Const::Asm(s, _, _) => {
                all.push(copy_chars(s.as_slice()));
            },
        }
        q = q + 1;
    }
    proof {
        assert(all.deep_view() =~= cand_strs(gv));
    }
    Err(CgErr::NoGadget(all))
}

/// A found instruction index lies in range with equal bytes.
proof fn lemma_insn_find(insns: Seq<(u64, Seq<u8>)>, b: Seq<u8>, j: int)
    requires
        j >= 0,
    ensures
        insn_find(insns, b, j) matches Some(i) ==> j <= i < insns.len() && insns[i].1 == b,
    decreases insns.len() - j,
{
    if j < insns.len() && !(insns[j].1 == b) {
        lemma_insn_find(insns, b, j + 1);
    }
}

} // verus!

verus! {

// ----- the payload fold -----

/// The gadget a call statement invokes: the candidate list of the last
/// gadget binding of the called name before the call, if any.
pub open spec fn called_gadget(pre: Seq<AstV>, v: VarV) -> Option<Seq<ConstV>> {
    match v {
        VarV::Var(id, _, _) => match crate::ast::spec_lookup(pre, id) {
            Some(i) => match pre[i] {
                AstV::Stat(ExpV::Let(_, rhs)) => match *rhs {
                    ExpV::Gadget(g) => Some(g),
                    _ => None,
                },
                _ => None,
            },
            None => None,
        },
    }
}

/// The candidate lists of the emitting statements among the first `i`
/// statements, in order: each gadget statement's own candidates, and
/// for each call statement the candidates of the gadget it invokes.
pub open spec fn gs_upto(s: Seq<AstV>, i: int) -> Seq<Seq<ConstV>>
    decreases i,
    when 0 <= i <= s.len()
{
    if i <= 0 {
        Seq::empty()
    } else {
        let p = gs_upto(s, i - 1);
        match s[i - 1] {
            AstV::Stat(ExpV::Gadget(g)) => p.push(g),
            AstV::Stat(ExpV::Call(v)) => match called_gadget(s.subrange(0, i - 1), v) {
                Some(g) => p.push(g),
                None => p,
            },
            _ => p,
        }
    }
}

/// The candidate lists of all emitting statements, in order.
pub open spec fn gadget_stats(s: Seq<AstV>) -> Seq<Seq<ConstV>> {
    gs_upto(s, s.len() as int)
}

/// The payload contribution of one gadget statement.
pub open spec fn spec_piece(
    g: Seq<ConstV>,
    outs: Seq<AsmOutcomeV>,
    ops: Seq<u8>,
    insns: Seq<(u64, Seq<u8>)>,
    base: u64,
    bw: BitWidth,
    bytewise: bool,
    byteorder: bool,
    outind: bool,
) -> Result<Seq<char>, CgErrV> {
    let found = if bytewise {
        spec_bytewise(g, outs, ops, base, 0)
    } else {
        spec_mnem(g, outs, insns, 0)
    };
    match found {
        Ok(p) => Ok(spec_subst(p.0, str_of_c(g[p.1]), bw, byteorder, outind)),
        Err(e) => Err(e),
    }
}

/// The payload of the first `k` emitting statements, concatenated.
pub open spec fn cg_upto(
    gs: Seq<Seq<ConstV>>,
    outs: Seq<Seq<AsmOutcomeV>>,
    ops: Seq<u8>,
    insns: Seq<(u64, Seq<u8>)>,
    base: u64,
    bw: BitWidth,
    bytewise: bool,
    byteorder: bool,
    outind: bool,
    k: int,
) -> Result<Seq<char>, CgErrV>
    decreases k,
    when 0 <= k <= gs.len() && outs.len() == gs.len()
{
    if k <= 0 {
        Ok(Seq::empty())
    } else {
        match cg_upto(gs, outs, ops, insns, base, bw, bytewise, byteorder, outind, k - 1) {
            Err(e) => Err(e),
            Ok(acc) => match spec_piece(
                gs[k - 1],
                outs[k - 1],
                ops,
                insns,
                base,
                bw,
                bytewise,
                byteorder,
                outind,
            ) {
                Ok(p) => Ok(acc + p),
                Err(e) => Err(e),
            },
        }
    }
}

/// The whole payload of a program.
pub open spec fn spec_codegen(
    ast: Seq<AstV>,
    outs: Seq<Seq<AsmOutcomeV>>,
    ops: Seq<u8>,
    insns: Seq<(u64, Seq<u8>)>,
    base: u64,
    bw: BitWidth,
    bytewise: bool,
    byteorder: bool,
    outind: bool,
) -> Result<Seq<char>, CgErrV> {
    cg_upto(
        gadget_stats(ast),
        outs,
        ops,
        insns,
        base,
        bw,
        bytewise,
        byteorder,
        outind,
        gadget_stats(ast).len() as int,
    )
}

/// Finds the candidates of the gadget a call invokes, scanning the
/// first `hi` statements backward.
#[verifier::loop_isolation(false)]
fn find_called(ast: &Vec<AST>, hi: usize, v: &Variable) -> (r: Option<Vec<Const>>)
    requires
        hi <= ast@.len(),
    ensures
        match r {
            Some(g) => called_gadget(ast.deep_view().subrange(0, hi as int), v.deep_view())
                == Some(g.deep_view()),
            None => called_gadget(ast.deep_view().subrange(0, hi as int), v.deep_view()) is None,
        },
{
    let ghost pre = ast.deep_view().subrange(0, hi as int);
    let id: &Vec<char> = match v {
        Variable::Var(id, _, _) => id,
    };
    let mut i: usize = hi;
    proof {
        assert(pre.subrange(0, hi as int) =~= pre);
    }
    while i > 0
        invariant
            i <= hi,
            crate::ast::spec_lookup(pre, id@) == crate::ast::spec_lookup(
                pre.subrange(0, i as int),
                id@,
            ),
        decreases i,
    {
        i = i - 1;
        let found: bool = match &ast[i] {
            AST::Stat(Exp::Let(Variable::Var(vname, _, _), _)) => crate::ast::id_eq(
                vname.as_slice(),
                id.as_slice(),
            ),
            _ => false,
        };
        proof {
            assert(pre.subrange(0, i as int + 1).last() == pre[i as int]);
            assert(pre[i as int] == ast.deep_view()[i as int]);
            assert(pre.subrange(0, i as int + 1).drop_last() =~= pre.subrange(0, i as int));
        }
        if found {
            assert(crate::ast::spec_lookup(pre, id@) == Some(i as int));
            proof {
                reveal_with_fuel(crate::ast::exp_view, 3);
            }
            match &ast[i] {
                AST::Stat(Exp::Let(_, e)) => {
                    match &**e {
                        Exp::Gadget(g) => {
                            proof {
                                assert(pre[i as int] matches AstV::Stat(ExpV::Let(_, rhs))
                                    && *rhs == ExpV::Gadget(g.deep_view()));
                            }
                            return Some(crate::ast::copy_consts(g));
                        },
                        _ => {
                            return None;
                        },
                    }
                },
                _ => {
                    return None;
                },
            }
        }
        assert(!crate::ast::is_let_of(pre[i as int], id@));
    }
    proof {
        assert(pre.subrange(0, 0) =~= Seq::<AstV>::empty());
    }
    None
}

/// Collects the candidate lists of all emitting statements, in order:
/// gadget statements and calls of gadget bindings.
#[verifier::loop_isolation(false)]
pub fn gadget_sets(ast: &Vec<AST>) -> (r: Vec<Vec<Const>>)
    ensures
        r.deep_view() == gadget_stats(ast.deep_view()),
{
    let ghost astv = ast.deep_view();
    let mut out: Vec<Vec<Const>> = Vec::new();
    let mut i: usize = 0;
    while i < ast.len()
        invariant
            i <= ast@.len(),
            out.deep_view() == gs_upto(astv, i as int),
        decreases ast@.len() - i,
    {
        let ghost outd = out.deep_view();
        match &ast[i] {
            AST::Stat(Exp::Gadget(g)) => {
                let gc = crate::ast::copy_consts(g);
                let ghost gd = gc.deep_view();
                out.push(gc);
                proof {
                    assert(out.deep_view() =~= outd.push(gd));
                }
            },
            AST::Stat(Exp::Call(v)) => {
                match find_called(ast, i, v) {
                    Some(gc) => {
                        let ghost gd = gc.deep_view();
                        out.push(gc);
                        proof {
                            assert(out.deep_view() =~= outd.push(gd));
                        }
                    },
                    None => {},
                }
            },
            _ => {},
        }
        i = i + 1;
    }
    out
}

/// Evaluates one emitting statement: search, then format.
pub fn eval_gadget(
    g: &Vec<Const>,
    outs: &Vec<AsmOutcome>,
    opcodes: &[u8],
    insns: &Vec<InsnRec>,
    addr_offset: u64,
    bitwidth: BitWidth,
    bytewise: bool,
    byteorder: bool,
    outind: bool,
) -> (r: Result<Vec<char>, CgErr>)
    requires
        outs@.len() == g@.len(),
        addr_offset + opcodes@.len() <= u64::MAX,
    ensures
        match r {
            Ok(p) => spec_piece(
                g.deep_view(),
                outs.deep_view(),
                opcodes@,
                insns.deep_view(),
                addr_offset,
                bitwidth,
                bytewise,
                byteorder,
                outind,
            ) == Ok::<Seq<char>, CgErrV>(p@),
            Err(e) => spec_piece(
                g.deep_view(),
                outs.deep_view(),
                opcodes@,
                insns.deep_view(),
                addr_offset,
                bitwidth,
                bytewise,
                byteorder,
                outind,
            ) == Err::<Seq<char>, CgErrV>(e.deep_view()),
        },
{
    let found = if bytewise {
        bytewise_search(g, outs, opcodes, addr_offset)
    } else {
        mnemonicwise_search(g, outs, insns)
    };
    match found {
        Ok(p) => {
            match &g[p.1] {
                Const::Asm(s, _, _) => Ok(subst_gadget(p.0, s.as_slice(), bitwidth, byteorder, outind)),
            }
        },
        Err(e) => Err(e),
    }
}

/// Generates the payload: every emitting statement's match — each
/// gadget statement and each call of a gadget binding — formatted and
/// concatenated in source order.
#[verifier::loop_isolation(false)]
pub fn codegen(
    ast: &Vec<AST>,
    outs: &Vec<Vec<AsmOutcome>>,
    opcodes: &[u8],
    insns: &Vec<InsnRec>,
    addr_offset: u64,
    bitwidth: BitWidth,
    bytewise: bool,
    byteorder: bool,
    outind: bool,
) -> (r: Result<Vec<char>, CgErr>)
    requires
        outs.deep_view().len() == gadget_stats(ast.deep_view()).len(),
        forall|k: int|
            0 <= k < outs.deep_view().len() ==> #[trigger] outs.deep_view()[k].len()
                == gadget_stats(ast.deep_view())[k].len(),
        addr_offset + opcodes@.len() <= u64::MAX,
    ensures
        match r {
            Ok(p) => spec_codegen(
                ast.deep_view(),
                outs.deep_view(),
                opcodes@,
                insns.deep_view(),
                addr_offset,
                bitwidth,
                bytewise,
                byteorder,
                outind,
            ) == Ok::<Seq<char>, CgErrV>(p@),
            Err(e) => spec_codegen(
                ast.deep_view(),
                outs.deep_view(),
                opcodes@,
                insns.deep_view(),
                addr_offset,
                bitwidth,
                bytewise,
                byteorder,
                outind,
            ) == Err::<Seq<char>, CgErrV>(e.deep_view()),
        },
{
    let ghost astv = ast.deep_view();
    let ghost ov = outs.deep_view();
    let ghost gstats = gadget_stats(astv);
    let gs = gadget_sets(ast);
    let mut payload: Vec<char> = Vec::new();
    let mut k: usize = 0;
    while k < gs.len()
        invariant
            k <= gs@.len(),
            gs.deep_view() == gstats,
            gs@.len() == gstats.len(),
            outs@.len() == gstats.len(),
            cg_upto(
                gstats,
                ov,
                opcodes@,
                insns.deep_view(),
                addr_offset,
                bitwidth,
                bytewise,
                byteorder,
                outind,
                k as int,
            ) == Ok::<Seq<char>, CgErrV>(payload@),
        decreases gs@.len() - k,
    {
        proof {
            assert(gs@[k as int].deep_view() == gstats[k as int]);
            assert(outs@[k as int].deep_view() == ov[k as int]);
        }
        let piece = match eval_gadget(
            &gs[k],
            &outs[k],
            opcodes,
            insns,
            addr_offset,
            bitwidth,
            bytewise,
            byteorder,
            outind,
        ) {
            Ok(p) => p,
            Err(e) => {
                proof {
                    lemma_cg_err_stable(
                        gstats,
                        ov,
                        opcodes@,
                        insns.deep_view(),
                        addr_offset,
                        bitwidth,
                        bytewise,
                        byteorder,
                        outind,
                        k as int + 1,
                        gstats.len() as int,
                    );
                }
                return Err(e);
            },
        };
        let ghost pd = piece.deep_view();
        let mut p2 = piece;
        payload.append(&mut p2);
        k = k + 1;
    }
    Ok(payload)
}

/// Once the fold fails, it stays failed.
proof fn lemma_cg_err_stable(
    gs: Seq<Seq<ConstV>>,
    outs: Seq<Seq<AsmOutcomeV>>,
    ops: Seq<u8>,
    insns: Seq<(u64, Seq<u8>)>,
    base: u64,
    bw: BitWidth,
    bytewise: bool,
    byteorder: bool,
    outind: bool,
    k: int,
    m: int,
)
    requires
        0 < k <= m <= gs.len(),
        outs.len() == gs.len(),
        cg_upto(gs, outs, ops, insns, base, bw, bytewise, byteorder, outind, k) is Err,
    ensures
        cg_upto(gs, outs, ops, insns, base, bw, bytewise, byteorder, outind, m) == cg_upto(
            gs,
            outs,
            ops,
            insns,
            base,
            bw,
            bytewise,
            byteorder,
            outind,
            k,
        ),
    decreases m - k,
{
    if m > k {
        lemma_cg_err_stable(gs, outs, ops, insns, base, bw, bytewise, byteorder, outind, k, m - 1);
    }
}

} // verus!

verus! {

// ----- the target machine -----

/// The CPU type and mode of the binary.
#[derive(Clone, Copy, Debug, PartialEq, Eq, Structural)]
pub enum Cpu {
    Arm,
    Thumb,
    Armv8,
    Micro,
    Mips3,
    Mips32R6,
    Mips32,
    Mips64,
    Sparc32,
    Sparc64,
    SparcV9,
    X8616,
    X8632,
    X8664,
}

/// The assembly syntax for disassembling and assembling.
#[derive(Clone, Copy, Debug, PartialEq, Eq, Structural)]
pub enum AsmSyntax {
    Att,
    Gas,
    Intel,
    Nasm,
}

/// Whether the disassembler supports the CPU mode.
pub open spec fn cpu_supported(c: Cpu) -> bool {
    c != Cpu::Armv8 && c != Cpu::Micro
}


/// A numeric stand-in for the CPU, used to state what the disassembler
/// returns.
pub open spec fn cpu_code(c: Cpu) -> int {
    match c {
        Cpu::Arm => 0,
        Cpu::Thumb => 1,
        Cpu::Armv8 => 2,
        Cpu::Micro => 3,
        Cpu::Mips3 => 4,
        Cpu::Mips32R6 => 5,
        Cpu::Mips32 => 6,
        Cpu::Mips64 => 7,
        Cpu::Sparc32 => 8,
        Cpu::Sparc64 => 9,
        Cpu::SparcV9 => 10,
        Cpu::X8616 => 11,
        Cpu::X8632 => 12,
        Cpu::X8664 => 13,
    }
}

/// A numeric stand-in for the syntax.
pub open spec fn syn_code(s: AsmSyntax) -> int {
    match s {
        AsmSyntax::Att => 0,
        AsmSyntax::Gas => 1,
        AsmSyntax::Intel => 2,
        AsmSyntax::Nasm => 3,
    }
}

// ----- the outside collaborators -----

/// What the object loader yields for a binary: `None` when the bytes do
/// not parse as an object file, else whether the file is little-endian
/// and, when one exists, the executable section's bytes and address.
pub uninterp spec fn obj_info_of(data: Seq<u8>) -> Option<(bool, Option<(Seq<u8>, u64)>)>;

/// What the disassembler yields for a section: each instruction's
/// address and bytes, in address order.
pub uninterp spec fn disasm_of(cpu: int, syn: int, code: Seq<u8>, base: u64) -> Option<
    Seq<(u64, Seq<u8>)>,
>;

#[verifier::external_type_specification]
#[verifier::external_body]
pub struct ExCsArch(capstone::Arch);

#[verifier::external_type_specification]
#[verifier::external_body]
pub struct ExCsMode(capstone::Mode);

#[verifier::external_type_specification]
#[verifier::external_body]
pub struct ExCsSyntax(capstone::Syntax);

/// Relies on `object::File::parse`, `Object::section_by_name`,
/// `Object::endianness` and `ObjectSection::{data, address}`: parses the
/// binary and hands out its endianness and, when a section named
/// `.text` or `__text` exists and is readable, that section's bytes and
/// load address.
#[verifier::external_body]
fn load_object(data: &[u8]) -> (r: Result<(bool, Option<(Vec<u8>, u64)>), CgErr>)
    ensures
        r matches Err(e) ==> obj_info_of(data@) is None && e.deep_view() == CgErrV::ObjParse,
        r matches Ok(t) ==> (match t.1 {
            Some(sec) => obj_info_of(data@) == Some((t.0, Some((sec.0@, sec.1)))),
            None => obj_info_of(data@) == Some((t.0, Option::<(Seq<u8>, u64)>::None)),
        }),
{
    let obj = match object::File::parse(data) { Ok(o) => o, Err(_) => return Err(CgErr::ObjParse) };
    let little = obj.endianness() == object::Endianness::Little;
    for name in [".text", "__text"] {
        if let Some(sec) = obj.section_by_name(name) {
            return match sec.data() {
                Ok(b) => Ok((little, Some((b.to_vec(), sec.address())))),
                Err(_) => Ok((little, None)),
            };
        }
    }
    Ok((little, None))
}

/// Relies on `capstone::Capstone::{new_raw, set_syntax, disasm_all}` and
/// `capstone::Insn::{address, bytes}`: disassembles the whole section at
/// its load address, yielding each instruction's address and bytes.
#[verifier::external_body]
fn cs_disasm(cpu: &Cpu, syntax: &AsmSyntax, code: &[u8], base: u64) -> (r: Result<
    Vec<InsnRec>,
    CgErr,
>)
    requires
        cpu_supported(*cpu),
    ensures
        match r {
            Ok(v) => disasm_of(cpu_code(*cpu), syn_code(*syntax), code@, base) == Some(
                v.deep_view(),
            ),
            Err(e) => disasm_of(cpu_code(*cpu), syn_code(*syntax), code@, base) is None
                && e.deep_view() == CgErrV::DisasmFailed,
        },
{
    let mut c = match capstone::Capstone::new_raw(cs_arch_of(cpu), cs_mode_of(cpu), capstone::NO_EXTRA_MODE, None) {
        Ok(c) => c,
        Err(_) => return Err(CgErr::DisasmFailed),
    };
    let x86 = *cpu == Cpu::X8616 || *cpu == Cpu::X8632 || *cpu == Cpu::X8664;
    if x86 && c.set_syntax(cs_syntax_of(syntax)).is_err() {
        return Err(CgErr::DisasmFailed);
    }
    let out = match c.disasm_all(code, base) {
        Ok(v) => Ok(v.iter().map(|i| InsnRec { addr: i.address(), bytes: i.bytes().to_vec() }).collect()),
        Err(_) => Err(CgErr::DisasmFailed),
    };
    out
}

/// The disassembler architecture of a CPU type.
#[verifier::external_body]
fn cs_arch_of(c: &Cpu) -> capstone::Arch {
    match c {
        Cpu::Arm | Cpu::Thumb | Cpu::Armv8 => capstone::Arch::ARM,
        Cpu::Micro | Cpu::Mips3 | Cpu::Mips32R6 | Cpu::Mips32 | Cpu::Mips64 => capstone::Arch::MIPS,
        Cpu::Sparc32 | Cpu::Sparc64 | Cpu::SparcV9 => capstone::Arch::SPARC,
        Cpu::X8616 | Cpu::X8632 | Cpu::X8664 => capstone::Arch::X86,
    }
}

/// The disassembler mode of a CPU type.
#[verifier::external_body]
fn cs_mode_of(c: &Cpu) -> capstone::Mode {
    match c {
        Cpu::Arm | Cpu::Armv8 => capstone::Mode::Arm,
        Cpu::Thumb => capstone::Mode::Thumb,
        Cpu::Micro | Cpu::Mips32 => capstone::Mode::Mips32,
        Cpu::Mips3 => capstone::Mode::Mips3,
        Cpu::Mips32R6 => capstone::Mode::Mips32R6,
        Cpu::Mips64 => capstone::Mode::Mips64,
        Cpu::Sparc32 | Cpu::Sparc64 => capstone::Mode::Default,
        Cpu::SparcV9 => capstone::Mode::V9,
        Cpu::X8616 => capstone::Mode::Mode16,
        Cpu::X8632 => capstone::Mode::Mode32,
        Cpu::X8664 => capstone::Mode::Mode64,
    }
}

/// The disassembler syntax option.
#[verifier::external_body]
fn cs_syntax_of(s: &AsmSyntax) -> capstone::Syntax {
    match s {
        AsmSyntax::Intel | AsmSyntax::Nasm => capstone::Syntax::Intel,
        AsmSyntax::Att | AsmSyntax::Gas => capstone::Syntax::Att,
    }
}

/// Generates the payload straight from a binary: the executable section
/// is located, disassembled when the search is mnemonic-wise, and every
/// gadget statement is matched and formatted.
pub fn codegen_binary(
    ast: &Vec<AST>,
    outs: &Vec<Vec<AsmOutcome>>,
    data: &[u8],
    cpu: Cpu,
    syntax: AsmSyntax,
    bitwidth: BitWidth,
    bytewise: bool,
    byteorder: bool,
    outind: bool,
) -> (r: Result<Vec<char>, CgErr>)
    requires
        outs.deep_view().len() == gadget_stats(ast.deep_view()).len(),
        forall|k: int|
            0 <= k < outs.deep_view().len() ==> #[trigger] outs.deep_view()[k].len()
                == gadget_stats(ast.deep_view())[k].len(),
    ensures
        !cpu_supported(cpu) ==> (r matches Err(e) && e.deep_view() == CgErrV::NotSupported),
        cpu_supported(cpu) && obj_info_of(data@) is None ==> (r matches Err(e) && e.deep_view()
            == CgErrV::ObjParse),
        cpu_supported(cpu) ==> (obj_info_of(data@) matches Some(info) ==> ({
            &&& !info.0 ==> (r matches Err(e) && e.deep_view() == CgErrV::BigEndian)
            &&& info.0 && info.1 is None ==> (r matches Err(e) && e.deep_view()
                == CgErrV::NoSection)
            &&& info.0 ==> (info.1 matches Some(sec) ==> ({
                &&& sec.1 + sec.0.len() > u64::MAX ==> (r matches Err(e) && e.deep_view()
                    == CgErrV::AddrRange)
                &&& sec.1 + sec.0.len() <= u64::MAX && bytewise ==> (match r {
                    Ok(p) => spec_codegen(
                        ast.deep_view(),
                        outs.deep_view(),
                        sec.0,
                        Seq::empty(),
                        sec.1,
                        bitwidth,
                        bytewise,
                        byteorder,
                        outind,
                    ) == Ok::<Seq<char>, CgErrV>(p@),
                    Err(e) => spec_codegen(
                        ast.deep_view(),
                        outs.deep_view(),
                        sec.0,
                        Seq::empty(),
                        sec.1,
                        bitwidth,
                        bytewise,
                        byteorder,
                        outind,
                    ) == Err::<Seq<char>, CgErrV>(e.deep_view()),
                })
                &&& sec.1 + sec.0.len() <= u64::MAX && !bytewise ==> (match disasm_of(
                    cpu_code(cpu),
                    syn_code(syntax),
                    sec.0,
                    sec.1,
                ) {
                    None => (r matches Err(e) && e.deep_view() == CgErrV::DisasmFailed),
                    Some(d) => (match r {
                        Ok(p) => spec_codegen(
                            ast.deep_view(),
                            outs.deep_view(),
                            sec.0,
                            d,
                            sec.1,
                            bitwidth,
                            bytewise,
                            byteorder,
                            outind,
                        ) == Ok::<Seq<char>, CgErrV>(p@),
                        Err(e) => spec_codegen(
                            ast.deep_view(),
                            outs.deep_view(),
                            sec.0,
                            d,
                            sec.1,
                            bitwidth,
                            bytewise,
                            byteorder,
                            outind,
                        ) == Err::<Seq<char>, CgErrV>(e.deep_view()),
                    }),
                })
            }))
        })),
{
    if cpu == Cpu::Armv8 || cpu == Cpu::Micro {
        return Err(CgErr::NotSupported);
    }
    let (little, section) = match load_object(data) {
        Ok(t) => t,
        Err(e) => {
            return Err(e);
        },
    };
    if !little {
        return Err(CgErr::BigEndian);
    }
    let (opcodes, addr_offset) = match section {
        Some(t) => t,
        None => {
            return Err(CgErr::NoSection);
        },
    };
    if opcodes.len() as u64 > u64::MAX - addr_offset {
        return Err(CgErr::AddrRange);
    }
    let insns: Vec<InsnRec> = if bytewise {
        Vec::new()
    } else {
        match cs_disasm(&cpu, &syntax, opcodes.as_slice(), addr_offset) {
            Ok(v) => v,
            Err(e) => {
                return Err(e);
            },
        }
    };
    proof {
        if bytewise {
            assert(insns.deep_view() =~= Seq::<(u64, Seq<u8>)>::empty());
        }
    }
    codegen(
        ast,
        outs,
        opcodes.as_slice(),
        &insns,
        addr_offset,
        bitwidth,
        bytewise,
        byteorder,
        outind,
    )
}

} // verus!

verus! {

/// A run of zeros has its requested length.
proof fn lemma_zeros_len(n: int)
    requires
        n >= 0,
    ensures
        zeros(n).len() == n,
    decreases n,
{
    if n > 0 {
        lemma_zeros_len(n - 1);
    }
}

/// One formatted address is exactly the requested width, whenever its
/// hex rendering fits that width; with individual output it carries the
/// candidate echo and two line breaks besides.
pub proof fn lemma_subst_len(addr: u64, cand: Seq<char>, bw: BitWidth, bo: bool, w: int)
    requires
        width_of(bw) == Some(w),
        w % 2 == 0,
        spec_hex(addr as int).len() <= w,
    ensures
        spec_subst(addr, cand, bw, bo, false).len() == w,
        spec_subst(addr, cand, bw, bo, true).len() == cand.len() + 2 + w,
{
    let h = spec_hex(addr as int);
    if bo {
        if h.len() % 2 == 0 {
            lemma_rev_pairs_len(h);
        } else {
            lemma_rev_pairs_len(seq!['0'] + h);
        }
    }
    let a = spec_align(h, bo);
    if a.len() < w {
        lemma_zeros_len(w - a.len());
    }
}

/// LAW: with a requested width and without individual output, a
/// successful payload holds exactly width-many hex characters for each
/// emitting statement — gadget statements and calls of gadget bindings
/// alike — provided every matched address's hex rendering fits the
/// width.
pub proof fn lemma_payload_length(
    gs: Seq<Seq<ConstV>>,
    outs: Seq<Seq<AsmOutcomeV>>,
    ops: Seq<u8>,
    insns: Seq<(u64, Seq<u8>)>,
    base: u64,
    bw: BitWidth,
    bytewise: bool,
    byteorder: bool,
    k: int,
    w: int,
)
    requires
        width_of(bw) == Some(w),
        w % 2 == 0,
        0 <= k <= gs.len(),
        outs.len() == gs.len(),
        cg_upto(gs, outs, ops, insns, base, bw, bytewise, byteorder, false, k) is Ok,
        forall|j: int|
            0 <= j < k ==> ((if bytewise {
                spec_bytewise(#[trigger] gs[j], outs[j], ops, base, 0)
            } else {
                spec_mnem(gs[j], outs[j], insns, 0)
            }) matches Ok(pr) ==> spec_hex(pr.0 as int).len() <= w),
    ensures
        cg_upto(gs, outs, ops, insns, base, bw, bytewise, byteorder, false, k)->Ok_0.len() == k
            * w,
    decreases k,
{
    if k > 0 {
        lemma_payload_length(gs, outs, ops, insns, base, bw, bytewise, byteorder, k - 1, w);
        let found = if bytewise {
            spec_bytewise(gs[k - 1], outs[k - 1], ops, base, 0)
        } else {
            spec_mnem(gs[k - 1], outs[k - 1], insns, 0)
        };
        match found {
            Ok(pr) => {
                lemma_subst_len(pr.0, str_of_c(gs[k - 1][pr.1]), bw, byteorder, w);
            },
            Err(_) => {},
        }
    }
}

} // verus!
