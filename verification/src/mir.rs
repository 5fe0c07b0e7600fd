//! Mid-level IR of Nord's stack-based virtual machine, and the lowering pass
//! that turns a syntax tree into a sequence of these instructions.
//!
//! Lowering assigns each variable name a dense logical slot index in
//! first-occurrence order. The table of names is flat for the whole
//! compilation unit: a `let` for a name that already has a slot allocates a
//! fresh slot and shadows the table entry from then on; the old slot is not
//! freed. Reading a name that has no slot yet allocates one silently (the
//! target format zero-initializes locals), while assigning to such a name is
//! an error.

use vstd::prelude::*;
use crate::ast::Atom;
use crate::ast::Expr;
use crate::ast::Opcode;

verus! {

/// Instructions of the stack-based virtual machine. `Block` evaluates to the
/// value its body leaves on the stack; `IfElse` consumes the condition the
/// enclosing sequence left there. Local slots are logical indices, bound to
/// storage only during code generation.
#[derive(Debug, PartialEq)]
pub enum Mir {
    ConstI64(i64),
    AddI64,
    SubI64,
    MulI64,
    DivI64,
    ModI64,
    GreaterThanI64,
    LessThanI64,
    EqualI64,
    NotEqualI64,
    GreaterThanOrEqualI64,
    LessThanOrEqualI64,
    LocalGet(u32),
    LocalSet(u32),
    LocalTee(u32),
    Block(Vec<Mir>),
    Loop(Vec<Mir>),
    IfElse(Vec<Mir>, Option<Vec<Mir>>),
    Drop,
}

/// Mathematical mirror of `Mir`: nested sequences instead of vectors.
/// Contracts and the machine semantics speak of this type.
#[verifier::ext_equal]
pub enum MirS {
    ConstI64(i64),
    AddI64,
    SubI64,
    MulI64,
    DivI64,
    ModI64,
    GreaterThanI64,
    LessThanI64,
    EqualI64,
    NotEqualI64,
    GreaterThanOrEqualI64,
    LessThanOrEqualI64,
    LocalGet(u32),
    LocalSet(u32),
    LocalTee(u32),
    Block(Seq<MirS>),
    Loop(Seq<MirS>),
    IfElse(Seq<MirS>, Option<Seq<MirS>>),
    Drop,
}

/// Abstraction of one instruction.
pub open spec fn mir_view(m: Mir) -> MirS
    decreases m,
{
    match m {
        Mir::ConstI64(n) => MirS::ConstI64(n),
        Mir::AddI64 => MirS::AddI64,
        Mir::SubI64 => MirS::SubI64,
        Mir::MulI64 => MirS::MulI64,
        Mir::DivI64 => MirS::DivI64,
        Mir::ModI64 => MirS::ModI64,
        Mir::GreaterThanI64 => MirS::GreaterThanI64,
        Mir::LessThanI64 => MirS::LessThanI64,
        Mir::EqualI64 => MirS::EqualI64,
        Mir::NotEqualI64 => MirS::NotEqualI64,
        Mir::GreaterThanOrEqualI64 => MirS::GreaterThanOrEqualI64,
        Mir::LessThanOrEqualI64 => MirS::LessThanOrEqualI64,
        Mir::LocalGet(i) => MirS::LocalGet(i),
        Mir::LocalSet(i) => MirS::LocalSet(i),
        Mir::LocalTee(i) => MirS::LocalTee(i),
        Mir::Block(ops) => MirS::Block(mirs_view(ops@)),
        Mir::Loop(ops) => MirS::Loop(mirs_view(ops@)),
        Mir::IfElse(th, el) => MirS::IfElse(
            mirs_view(th@),
            match el {
                Some(ops) => Some(mirs_view(ops@)),
                None => None,
            },
        ),
        Mir::Drop => MirS::Drop,
    }
}

/// Abstraction of an instruction sequence.
pub open spec fn mirs_view(s: Seq<Mir>) -> Seq<MirS>
    decreases s,
{
    if s.len() == 0 {
        Seq::empty()
    } else {
        seq![mir_view(s.first())] + mirs_view(s.drop_first())
    }
}

pub proof fn lemma_mirs_view_index(s: Seq<Mir>, i: int)
    requires
        0 <= i < s.len(),
    ensures
        mirs_view(s).len() == s.len(),
        mirs_view(s)[i] == mir_view(s[i]),
    decreases s,
{
    lemma_mirs_view_len(s);
    if i > 0 {
        lemma_mirs_view_index(s.drop_first(), i - 1);
    }
}

pub proof fn lemma_mirs_view_len(s: Seq<Mir>)
    ensures
        mirs_view(s).len() == s.len(),
    decreases s,
{
    if s.len() > 0 {
        lemma_mirs_view_len(s.drop_first());
    }
}

pub proof fn lemma_mirs_view_push(s: Seq<Mir>, m: Mir)
    ensures
        mirs_view(s.push(m)) =~= mirs_view(s).push(mir_view(m)),
    decreases s,
{
    lemma_mirs_view_len(s);
    lemma_mirs_view_len(s.push(m));
    assert forall|i: int| 0 <= i < s.len() + 1 implies mirs_view(s.push(m))[i] == mirs_view(
        s,
    ).push(mir_view(m))[i] by {
        lemma_mirs_view_index(s.push(m), i);
        if i < s.len() {
            lemma_mirs_view_index(s, i);
        }
    }
}

/// Why lowering can reject an input.
#[derive(Debug, Clone, Copy, PartialEq, Eq)]
pub enum CompileError {
    /// Assignment to a name that has no allocated slot.
    UndefinedVariable,
    /// Left side of `=` is not a bare identifier.
    InvalidAssignmentTarget,
    /// An AST form this backend does not lower (arrays, objects, member or
    /// index access, lambdas, calls, string constants).
    UnsupportedExpression,
    /// An operator this backend does not lower (the payload names it).
    UnsupportedOpcode(Opcode),
}

/// The slot table: the name that owns slot `i` stands at index `i`. A name
/// may occur several times; the highest index is the visible (most recent)
/// binding.
pub type SlotTable = Seq<Seq<char>>;

/// Outcome of lowering: the instructions plus the table they grew.
pub type LowerResult = Result<(Seq<MirS>, SlotTable), CompileError>;

/// The visible slot of `name`: the index of its most recent table entry.
pub open spec fn slot_of(t: SlotTable, name: Seq<char>) -> Option<int>
    decreases t.len(),
{
    if t.len() == 0 {
        None
    } else if t.last() == name {
        Some(t.len() - 1)
    } else {
        slot_of(t.drop_last(), name)
    }
}

/// The machine instruction of a non-assignment binary operator, if the
/// backend lowers it.
pub open spec fn binop_mir(op: Opcode) -> Option<MirS> {
    match op {
        Opcode::Add => Some(MirS::AddI64),
        Opcode::Sub => Some(MirS::SubI64),
        Opcode::Mul => Some(MirS::MulI64),
        Opcode::Div => Some(MirS::DivI64),
        Opcode::Mod => Some(MirS::ModI64),
        Opcode::Greater => Some(MirS::GreaterThanI64),
        Opcode::Less => Some(MirS::LessThanI64),
        Opcode::Equal => Some(MirS::EqualI64),
        Opcode::NotEqual => Some(MirS::NotEqualI64),
        Opcode::GreaterEqual => Some(MirS::GreaterThanOrEqualI64),
        Opcode::LessEqual => Some(MirS::LessThanOrEqualI64),
        _ => None,
    }
}

/// Lowering of one leaf. A read of an unknown name allocates the next slot.
pub open spec fn lower_atom(a: Atom, t: SlotTable) -> LowerResult {
    match a {
        Atom::Num(n) => Ok((seq![MirS::ConstI64(n)], t)),
        Atom::Boolean(b) => Ok(
            (
                seq![MirS::ConstI64(
                    if b {
                        1
                    } else {
                        0
                    },
                )],
                t,
            ),
        ),
        Atom::Identifier(id) => match slot_of(t, id@) {
            Some(i) => Ok((seq![MirS::LocalGet(i as u32)], t)),
            None => Ok((seq![MirS::LocalGet(t.len() as u32)], t.push(id@))),
        },
        Atom::Text(_) => Err(CompileError::UnsupportedExpression),
    }
}

/// The lowering translation. One rule per accepted AST form:
/// - literals become constants (booleans as 1/0);
/// - binary operators lower left then right, strictly in that order, then
///   the operator's instruction;
/// - assignment lowers only the right side, then a set of the target's
///   already-allocated slot;
/// - unary negation is rewritten as `0 - operand`;
/// - `let` lowers the bound expression, allocates a fresh slot and sets it;
/// - a block lowers its parts in order into one nested `Block`;
/// - a conditional lowers its condition into the enclosing sequence, then
///   each branch into its own nested sequence.
/// Everything else is rejected.
pub open spec fn lower_expr(e: Expr, t: SlotTable) -> LowerResult
    decreases e,
{
    match e {
        Expr::Constant(a) => lower_atom(a, t),
        Expr::BinaryOp(l, op, r) => {
            if op == Opcode::Assign {
                match lower_expr(*r, t) {
                    Ok((rc, t1)) => match *l {
                        Expr::Constant(Atom::Identifier(id)) => match slot_of(t1, id@) {
                            Some(i) => Ok((rc.push(MirS::LocalSet(i as u32)), t1)),
                            None => Err(CompileError::UndefinedVariable),
                        },
                        _ => Err(CompileError::InvalidAssignmentTarget),
                    },
                    Err(er) => Err(er),
                }
            } else {
                match lower_expr(*l, t) {
                    Ok((lc, t1)) => match lower_expr(*r, t1) {
                        Ok((rc, t2)) => match binop_mir(op) {
                            Some(m) => Ok((lc + rc + seq![m], t2)),
                            None => Err(CompileError::UnsupportedOpcode(op)),
                        },
                        Err(er) => Err(er),
                    },
                    Err(er) => Err(er),
                }
            }
        },
        Expr::UnaryOp(op, inner) => {
            if op == Opcode::Neg {
                match lower_expr(*inner, t) {
                    Ok((c, t1)) => Ok((seq![MirS::ConstI64(0)] + c + seq![MirS::SubI64], t1)),
                    Err(er) => Err(er),
                }
            } else {
                Err(CompileError::UnsupportedOpcode(op))
            }
        },
        Expr::Let(name, inner) => {
            match lower_expr(*inner, t) {
                Ok((c, t1)) => Ok((c.push(MirS::LocalSet(t1.len() as u32)), t1.push(name@))),
                Err(er) => Err(er),
            }
        },
        Expr::Block(exprs) => {
            match lower_seq(exprs@, t) {
                Ok((c, t1)) => Ok((seq![MirS::Block(c)], t1)),
                Err(er) => Err(er),
            }
        },
        Expr::IfElse(cond, th, el) => {
            match lower_expr(*cond, t) {
                Ok((cc, t1)) => match lower_expr(*th, t1) {
                    Ok((tc, t2)) => match el {
                        Some(ee) => match lower_expr(*ee, t2) {
                            Ok((ec, t3)) => Ok((cc.push(MirS::IfElse(tc, Some(ec))), t3)),
                            Err(er) => Err(er),
                        },
                        None => Ok((cc.push(MirS::IfElse(tc, None)), t2)),
                    },
                    Err(er) => Err(er),
                },
                Err(er) => Err(er),
            }
        },
        _ => Err(CompileError::UnsupportedExpression),
    }
}

/// Lowering of the parts of a block, left to right, threading the table.
pub open spec fn lower_seq(es: Seq<Expr>, t: SlotTable) -> LowerResult
    decreases es,
{
    if es.len() == 0 {
        Ok((Seq::empty(), t))
    } else {
        match lower_expr(es.first(), t) {
            Ok((c1, t1)) => match lower_seq(es.drop_first(), t1) {
                Ok((c2, t2)) => Ok((c1 + c2, t2)),
                Err(er) => Err(er),
            },
            Err(er) => Err(er),
        }
    }
}

/// Lowering of a whole program: an empty table, and only the instructions.
pub open spec fn lower_program(e: Expr) -> Result<Seq<MirS>, CompileError> {
    match lower_expr(e, Seq::empty()) {
        Ok((c, _)) => Ok(c),
        Err(er) => Err(er),
    }
}

/// Upper bound on the slots lowering `e` can allocate: one per identifier
/// read and one per `let`.
pub open spec fn alloc_sites(e: Expr) -> nat
    decreases e,
{
    match e {
        Expr::Constant(a) => match a {
            Atom::Identifier(_) => 1nat,
            _ => 0nat,
        },
        Expr::BinaryOp(l, _, r) => alloc_sites(*l) + alloc_sites(*r),
        Expr::UnaryOp(_, inner) => alloc_sites(*inner),
        Expr::Let(_, inner) => 1 + alloc_sites(*inner),
        Expr::Block(exprs) => alloc_sites_seq(exprs@),
        Expr::IfElse(c, th, el) => alloc_sites(*c) + alloc_sites(*th) + (match el {
            Some(x) => alloc_sites(*x),
            None => 0nat,
        }),
        _ => 0nat,
    }
}

pub open spec fn alloc_sites_seq(es: Seq<Expr>) -> nat
    decreases es,
{
    if es.len() == 0 {
        0nat
    } else {
        alloc_sites(es.first()) + alloc_sites_seq(es.drop_first())
    }
}

/// A successful lowering only appends to the table, and appends at most
/// `alloc_sites(e)` entries.
pub proof fn lemma_lower_growth(e: Expr, t: SlotTable)
    ensures
        lower_expr(e, t) matches Ok(p) ==> t.len() <= p.1.len() <= t.len() + alloc_sites(e)
            && p.1.take(t.len() as int) =~= t,
    decreases e,
{
    match e {
        Expr::Constant(a) => {
            match a {
                Atom::Identifier(id) => {
                    if slot_of(t, id@) is None {
                        assert(t.push(id@).take(t.len() as int) =~= t);
                    } else {
                        assert(t.take(t.len() as int) =~= t);
                    }
                },
                _ => {
                    assert(t.take(t.len() as int) =~= t);
                },
            }
        },
        Expr::BinaryOp(l, op, r) => {
            if op == Opcode::Assign {
                lemma_lower_growth(*r, t);
            } else {
                lemma_lower_growth(*l, t);
                match lower_expr(*l, t) {
                    Ok(p1) => {
                        lemma_lower_growth(*r, p1.1);
                        match lower_expr(*r, p1.1) {
                            Ok(p2) => {
                                lemma_prefix_trans(t, p1.1, p2.1);
                            },
                            Err(_) => {},
                        }
                    },
                    Err(_) => {},
                }
            }
        },
        Expr::UnaryOp(op, inner) => {
            lemma_lower_growth(*inner, t);
        },
        Expr::Let(name, inner) => {
            lemma_lower_growth(*inner, t);
            match lower_expr(*inner, t) {
                Ok(p1) => {
                    assert(p1.1.push(name@).take(p1.1.len() as int) =~= p1.1);
                    lemma_prefix_trans(t, p1.1, p1.1.push(name@));
                },
                Err(_) => {},
            }
        },
        Expr::Block(exprs) => {
            lemma_lower_seq_growth(exprs@, t);
        },
        Expr::IfElse(c, th, el) => {
            lemma_lower_growth(*c, t);
            match lower_expr(*c, t) {
                Ok(p1) => {
                    lemma_lower_growth(*th, p1.1);
                    match lower_expr(*th, p1.1) {
                        Ok(p2) => {
                            lemma_prefix_trans(t, p1.1, p2.1);
                            match el {
                                Some(x) => {
                                    lemma_lower_growth(*x, p2.1);
                                    match lower_expr(*x, p2.1) {
                                        Ok(p3) => {
                                            lemma_prefix_trans(t, p2.1, p3.1);
                                        },
                                        Err(_) => {},
                                    }
                                },
                                None => {},
                            }
                        },
                        Err(_) => {},
                    }
                },
                Err(_) => {},
            }
        },
        _ => {},
    }
}

/// As `lemma_lower_growth`, for the parts of a block.
pub proof fn lemma_lower_seq_growth(es: Seq<Expr>, t: SlotTable)
    ensures
        lower_seq(es, t) matches Ok(p) ==> t.len() <= p.1.len() <= t.len() + alloc_sites_seq(es)
            && p.1.take(t.len() as int) =~= t,
    decreases es,
{
    if es.len() == 0 {
        assert(t.take(t.len() as int) =~= t);
    } else {
        lemma_lower_growth(es.first(), t);
        match lower_expr(es.first(), t) {
            Ok(p1) => {
                lemma_lower_seq_growth(es.drop_first(), p1.1);
                match lower_seq(es.drop_first(), p1.1) {
                    Ok(p2) => {
                        lemma_prefix_trans(t, p1.1, p2.1);
                    },
                    Err(_) => {},
                }
            },
            Err(_) => {},
        }
    }
}

/// Prefix order on tables is transitive.
proof fn lemma_prefix_trans(a: SlotTable, b: SlotTable, c: SlotTable)
    requires
        a.len() <= b.len() <= c.len(),
        b.take(a.len() as int) =~= a,
        c.take(b.len() as int) =~= b,
    ensures
        c.take(a.len() as int) =~= a,
{
    assert forall|i: int| 0 <= i < a.len() implies c.take(a.len() as int)[i] == a[i] by {
        assert(b.take(a.len() as int)[i] == a[i]);
        assert(c.take(b.len() as int)[i] == b[i]);
    }
}

/// `alloc_sites`, capped one above the largest 32-bit slot index: enough
/// to decide whether lowering's slot indices fit.
pub open spec fn capped_sites(n: nat) -> nat {
    if n > 0x1_0000_0000 {
        0x1_0000_0000 as nat
    } else {
        n
    }
}

proof fn lemma_sites_seq_concat(a: Seq<Expr>, b: Seq<Expr>)
    ensures
        alloc_sites_seq(a + b) == alloc_sites_seq(a) + alloc_sites_seq(b),
    decreases a,
{
    if a.len() == 0 {
        assert(a + b =~= b);
    } else {
        assert((a + b).first() == a.first());
        assert((a + b).drop_first() =~= a.drop_first() + b);
        lemma_sites_seq_concat(a.drop_first(), b);
    }
}

/// Capped addition of two capped counts.
fn add_capped(a: u64, b: u64) -> (r: u64)
    requires
        a <= 0x1_0000_0000u64,
        b <= 0x1_0000_0000u64,
    ensures
        r as nat == capped_sites((a + b) as nat),
        r <= 0x1_0000_0000u64,
{
    let s = a + b;
    if s > 0x1_0000_0000u64 {
        0x1_0000_0000u64
    } else {
        s
    }
}

/// The number of slot-allocation sites in the tree, capped one above the
/// largest 32-bit slot index.
fn count_sites(e: &Expr) -> (r: u64)
    ensures
        r as nat == capped_sites(alloc_sites(*e)),
        r <= 0x1_0000_0000u64,
    decreases *e,
{
    match e {
        Expr::Constant(a) => match a {
            Atom::Identifier(_) => 1,
            _ => 0,
        },
        Expr::BinaryOp(l, _, r2) => {
            let cl = count_sites(l);
            let cr = count_sites(r2);
            add_capped(cl, cr)
        },
        Expr::UnaryOp(_, inner) => count_sites(inner),
        Expr::Let(_, inner) => {
            let ci = count_sites(inner);
            add_capped(1, ci)
        },
        Expr::Block(exprs) => {
            let ghost es = exprs@;
            let mut acc: u64 = 0;
            proof {
                assert(es.take(0) =~= Seq::<Expr>::empty());
            }
            let mut k: usize = 0;
            while k < exprs.len()
                invariant
                    k <= es.len(),
                    exprs@ == es,
                    *e == Expr::Block(*exprs),
                    acc <= 0x1_0000_0000u64,
                    acc as nat == capped_sites(alloc_sites_seq(es.take(k as int))),
                decreases es.len() - k,
            {
                proof {
                    assert(decreases_to!(*e => (*e)->Block_0@[k as int]));
                    assert((*e)->Block_0 == *exprs);
                    assert(decreases_to!(*e => exprs@[k as int]));
                }
                let c = count_sites(&exprs[k]);
                proof {
                    assert(es.take(k + 1) =~= es.take(k as int) + seq![es[k as int]]);
                    lemma_sites_seq_concat(es.take(k as int), seq![es[k as int]]);
                    assert(seq![es[k as int]].first() == es[k as int]);
                    assert(seq![es[k as int]].drop_first() =~= Seq::<Expr>::empty());
                    assert(alloc_sites_seq(Seq::<Expr>::empty()) == 0);
                    assert(alloc_sites_seq(seq![es[k as int]]) == alloc_sites(es[k as int]));
                }
                acc = add_capped(acc, c);
                k = k + 1;
            }
            proof {
                assert(es.take(es.len() as int) =~= es);
            }
            acc
        },
        Expr::IfElse(c, th, el) => {
            let cc = count_sites(c);
            let ct = count_sites(th);
            let partial = add_capped(cc, ct);
            match el {
                Some(x) => {
                    let ce = count_sites(x);
                    add_capped(partial, ce)
                },
                None => partial,
            }
        },
        _ => 0,
    }
}

/// Lowering is a function of the tree alone: the same AST, lowered twice
/// from fresh tables, gets identical instructions and identical slot
/// assignments in identical order. The executable `compile` returns
/// exactly `lower_program` of its input, so two runs agree with each
/// other.
pub proof fn lemma_lowering_repeatable(e1: Expr, e2: Expr)
    requires
        e1 == e2,
    ensures
        lower_program(e1) == lower_program(e2),
{
}

/// For a binary operation, the left operand's work comes first: lowering
/// starts the right operand from the table the left operand left behind.
/// The table only ever grows at the end, so every slot the left side
/// allocates has a smaller index than every slot the right side allocates,
/// and the tables form a prefix chain.
pub open spec fn binop_slots_ordered(l: Expr, r: Expr, t: SlotTable, t_after: SlotTable) -> bool {
    lower_expr(l, t) matches Ok(pl) && (lower_expr(r, pl.1) matches Ok(pr) && t_after == pr.1
        && t.len() <= pl.1.len() <= pr.1.len() && pl.1.take(t.len() as int) == t && pr.1.take(
        pl.1.len() as int,
    ) == pl.1)
}

pub proof fn lemma_binop_left_slots_first(e: Expr, t: SlotTable)
    ensures
        e matches Expr::BinaryOp(l, op, r) ==> (op != Opcode::Assign ==> (lower_expr(
            e,
            t,
        ) matches Ok(q) ==> binop_slots_ordered(*l, *r, t, q.1))),
{
    match e {
        Expr::BinaryOp(l, op, r) => {
            if op != Opcode::Assign {
                lemma_lower_growth(*l, t);
                match lower_expr(*l, t) {
                    Ok(pl) => {
                        lemma_lower_growth(*r, pl.1);
                    },
                    Err(_) => {},
                }
            }
        },
        _ => {},
    }
}

/// The table a vector of names stands for.
pub open spec fn tblv(names: Seq<String>) -> SlotTable {
    names.map_values(|s: String| s@)
}

/// The visible slot of `name` in the exec table, scanning newest first.
fn lookup_slot(locals: &Vec<String>, name: &String) -> (r: Option<u32>)
    requires
        locals@.len() <= u32::MAX,
    ensures
        match r {
            Some(i) => slot_of(tblv(locals@), name@) == Some(i as int),
            None => slot_of(tblv(locals@), name@) is None,
        },
{
    let ghost t = tblv(locals@);
    let mut i: usize = locals.len();
    assert(t.take(i as int) =~= t);
    loop
        invariant
            i <= locals@.len() <= u32::MAX,
            t == tblv(locals@),
            slot_of(t, name@) == slot_of(t.take(i as int), name@),
        decreases i,
    {
        if i == 0 {
            return None;
        }
        i = i - 1;
        let hit = locals[i] == *name;
        proof {
            assert(t.take(i + 1).last() == t[i as int]);
            assert(t[i as int] == locals@[i as int]@);
            assert(t.take(i + 1).drop_last() =~= t.take(i as int));
        }
        if hit {
            return Some(i as u32);
        }
    }
}

proof fn lemma_tblv_push(names: Seq<String>, name: String)
    ensures
        tblv(names.push(name)) =~= tblv(names).push(name@),
{
}

proof fn lemma_sites_skip_unfold(es: Seq<Expr>, k: int)
    requires
        0 <= k < es.len(),
    ensures
        alloc_sites_seq(es.skip(k)) == alloc_sites(es[k]) + alloc_sites_seq(es.skip(k + 1)),
{
    assert(es.skip(k).first() == es[k]);
    assert(es.skip(k).drop_first() =~= es.skip(k + 1));
}

proof fn lemma_lower_seq_skip_unfold(es: Seq<Expr>, k: int, t: SlotTable)
    requires
        0 <= k < es.len(),
    ensures
        lower_seq(es.skip(k), t) == (match lower_expr(es[k], t) {
            Ok(p1) => match lower_seq(es.skip(k + 1), p1.1) {
                Ok(p2) => Ok::<(Seq<MirS>, SlotTable), CompileError>((p1.0 + p2.0, p2.1)),
                Err(er) => Err(er),
            },
            Err(er) => Err(er),
        }),
{
    assert(es.skip(k).first() == es[k]);
    assert(es.skip(k).drop_first() =~= es.skip(k + 1));
}

/// Lower one expression, appending its instructions to `bytecode` and
/// growing the slot table `locals`, exactly as `lower_expr` says.
#[verifier::rlimit(100)]
fn compile_expr(ast: &Expr, bytecode: &mut Vec<Mir>, locals: &mut Vec<String>) -> (r: Result<
    (),
    CompileError,
>)
    requires
        tblv(old(locals)@).len() + alloc_sites(*ast) <= u32::MAX,
    ensures
        ({
            let res = lower_expr(*ast, tblv(old(locals)@));
            match r {
                Ok(u) => res matches Ok(p) && mirs_view(final(bytecode)@) == mirs_view(
                    old(bytecode)@,
                ) + p.0 && tblv(final(locals)@) == p.1,
                Err(er) => res == Err::<(Seq<MirS>, SlotTable), CompileError>(er),
            }
        }),
    decreases *ast,
{
    let ghost t0 = tblv(locals@);
    let ghost bc0 = bytecode@;
    match ast {
        Expr::Constant(atom) => match atom {
            Atom::Num(num) => {
                bytecode.push(Mir::ConstI64(*num));
                proof {
                    lemma_mirs_view_push(bc0, Mir::ConstI64(*num));
                    assert(mirs_view(bytecode@) =~= mirs_view(bc0) + seq![MirS::ConstI64(*num)]);
                }
                Ok(())
            },
            Atom::Boolean(b) => {
                let v: i64 = if *b {
                    1
                } else {
                    0
                };
                bytecode.push(Mir::ConstI64(v));
                proof {
                    lemma_mirs_view_push(bc0, Mir::ConstI64(v));
                    assert(mirs_view(bytecode@) =~= mirs_view(bc0) + seq![MirS::ConstI64(v)]);
                }
                Ok(())
            },
            Atom::Identifier(ident) => {
                match lookup_slot(locals, ident) {
                    Some(i) => {
                        bytecode.push(Mir::LocalGet(i));
                        proof {
                            lemma_mirs_view_push(bc0, Mir::LocalGet(i));
                            assert(mirs_view(bytecode@) =~= mirs_view(bc0) + seq![MirS::LocalGet(
                                i,
                            )]);
                        }
                        Ok(())
                    },
                    None => {
                        let idx = locals.len() as u32;
                        locals.push(ident.clone());
                        bytecode.push(Mir::LocalGet(idx));
                        proof {
                            lemma_tblv_push(old(locals)@, *ident);
                            lemma_mirs_view_push(bc0, Mir::LocalGet(idx));
                            assert(mirs_view(bytecode@) =~= mirs_view(bc0) + seq![MirS::LocalGet(
                                idx,
                            )]);
                        }
                        Ok(())
                    },
                }
            },
            Atom::Text(_) => Err(CompileError::UnsupportedExpression),
        },
        Expr::BinaryOp(lhs, op, rhs) => {
            match *op {
                Opcode::Assign => {
                    match compile_expr(rhs, bytecode, locals) {
                        Err(er) => {
                            return Err(er);
                        },
                        Ok(()) => {},
                    }
                    proof {
                        lemma_lower_growth(**rhs, t0);
                    }
                    match &**lhs {
                        Expr::Constant(a2) => match a2 {
                            Atom::Identifier(id) => match lookup_slot(locals, id) {
                                Some(i) => {
                                    let ghost bc1 = bytecode@;
                                    bytecode.push(Mir::LocalSet(i));
                                    proof {
                                        lemma_mirs_view_push(bc1, Mir::LocalSet(i));
                                        assert(mirs_view(bytecode@) =~= mirs_view(bc1).push(
                                            MirS::LocalSet(i),
                                        ));
                                    }
                                    Ok(())
                                },
                                None => Err(CompileError::UndefinedVariable),
                            },
                            _ => Err(CompileError::InvalidAssignmentTarget),
                        },
                        _ => Err(CompileError::InvalidAssignmentTarget),
                    }
                },
                o => {
                    match compile_expr(lhs, bytecode, locals) {
                        Err(er) => {
                            return Err(er);
                        },
                        Ok(()) => {},
                    }
                    proof {
                        lemma_lower_growth(**lhs, t0);
                    }
                    match compile_expr(rhs, bytecode, locals) {
                        Err(er) => {
                            return Err(er);
                        },
                        Ok(()) => {},
                    }
                    let ghost bc1 = bytecode@;
                    let instr = match o {
                        Opcode::Add => Mir::AddI64,
                        Opcode::Sub => Mir::SubI64,
                        Opcode::Mul => Mir::MulI64,
                        Opcode::Div => Mir::DivI64,
                        Opcode::Mod => Mir::ModI64,
                        Opcode::Greater => Mir::GreaterThanI64,
                        Opcode::Less => Mir::LessThanI64,
                        Opcode::Equal => Mir::EqualI64,
                        Opcode::NotEqual => Mir::NotEqualI64,
                        Opcode::GreaterEqual => Mir::GreaterThanOrEqualI64,
                        Opcode::LessEqual => Mir::LessThanOrEqualI64,
                        _ => {
                            return Err(CompileError::UnsupportedOpcode(o));
                        },
                    };
                    bytecode.push(instr);
                    proof {
                        lemma_mirs_view_push(bc1, instr);
                        assert(mirs_view(bytecode@) =~= mirs_view(bc1) + seq![mir_view(instr)]);
                        assert(binop_mir(o) == Some(mir_view(instr)));
                    }
                    Ok(())
                },
            }
        },
        Expr::UnaryOp(op, inner) => {
            match *op {
                Opcode::Neg => {
                    bytecode.push(Mir::ConstI64(0));
                    proof {
                        lemma_mirs_view_push(bc0, Mir::ConstI64(0));
                    }
                    match compile_expr(inner, bytecode, locals) {
                        Err(er) => {
                            return Err(er);
                        },
                        Ok(()) => {},
                    }
                    let ghost bc1 = bytecode@;
                    bytecode.push(Mir::SubI64);
                    proof {
                        lemma_mirs_view_push(bc1, Mir::SubI64);
                        assert(mirs_view(bc0.push(Mir::ConstI64(0))) =~= mirs_view(bc0) + seq![
                            MirS::ConstI64(0),
                        ]);
                        let res = lower_expr(**inner, t0);
                        if let Ok(p) = res {
                            assert(mirs_view(bytecode@) =~= mirs_view(bc0) + (seq![MirS::ConstI64(
                                0,
                            )] + p.0 + seq![MirS::SubI64]));
                        }
                    }
                    Ok(())
                },
                o => Err(CompileError::UnsupportedOpcode(o)),
            }
        },
        Expr::Let(ident, inner) => {
            match compile_expr(inner, bytecode, locals) {
                Err(er) => {
                    return Err(er);
                },
                Ok(()) => {},
            }
            proof {
                lemma_lower_growth(**inner, t0);
            }
            let idx = locals.len() as u32;
            let ghost names1 = locals@;
            let ghost bc1 = bytecode@;
            locals.push(ident.clone());
            bytecode.push(Mir::LocalSet(idx));
            proof {
                lemma_tblv_push(names1, *ident);
                lemma_mirs_view_push(bc1, Mir::LocalSet(idx));
                assert(mirs_view(bytecode@) =~= mirs_view(bc1).push(MirS::LocalSet(idx)));
            }
            Ok(())
        },
        Expr::Block(exprs) => {
            let ghost es = exprs@;
            let mut block_vec: Vec<Mir> = Vec::new();
            proof {
                assert(es.skip(0) =~= es);
                assert(mirs_view(block_vec@) =~= Seq::<MirS>::empty());
            }
            let mut k: usize = 0;
            while k < exprs.len()
                invariant
                    k <= es.len(),
                    exprs@ == es,
                    *ast == Expr::Block(*exprs),
                    t0 == tblv(old(locals)@),
                    tblv(locals@).len() + alloc_sites_seq(es.skip(k as int)) <= u32::MAX,
                    (lower_seq(es.skip(k as int), tblv(locals@)) matches Ok(p2)
                        ==> lower_seq(es, t0) matches Ok(q) && q.0 == mirs_view(block_vec@) + p2.0
                            && q.1 == p2.1),
                    (lower_seq(es.skip(k as int), tblv(locals@)) matches Err(er)
                        ==> lower_seq(es, t0) == Err::<(Seq<MirS>, SlotTable), CompileError>(er)),
                decreases es.len() - k,
            {
                proof {
                    lemma_sites_skip_unfold(es, k as int);
                    lemma_lower_seq_skip_unfold(es, k as int, tblv(locals@));
                }
                let ghost t_before = tblv(locals@);
                let ghost bv_before = block_vec@;
                match compile_expr(&exprs[k], &mut block_vec, locals) {
                    Err(er) => {
                        return Err(er);
                    },
                    Ok(()) => {},
                }
                proof {
                    lemma_lower_growth(es[k as int], t_before);
                    if let Ok(p1) = lower_expr(es[k as int], t_before) {
                        assert(mirs_view(block_vec@) =~= mirs_view(bv_before) + p1.0);
                        if let Ok(p2) = lower_seq(es.skip(k + 1), tblv(locals@)) {
                            assert(mirs_view(bv_before) + p1.0 + p2.0 =~= mirs_view(bv_before) + (
                            p1.0 + p2.0));
                        }
                    }
                }
                k = k + 1;
            }
            proof {
                assert(es.skip(es.len() as int) =~= Seq::<Expr>::empty());
                let tnow = tblv(locals@);
                assert(lower_seq(es.skip(es.len() as int), tnow) == Ok::<
                    (Seq<MirS>, SlotTable),
                    CompileError,
                >((Seq::empty(), tnow)));
                if let Ok(q) = lower_seq(es, t0) {
                    assert(q.0 =~= mirs_view(block_vec@));
                }
            }
            let ghost bv = block_vec@;
            let mb = Mir::Block(block_vec);
            let ghost mbs = mb;
            bytecode.push(mb);
            proof {
                lemma_mirs_view_push(bc0, mbs);
                assert(mir_view(mbs) == MirS::Block(mirs_view(bv)));
                assert(mirs_view(bytecode@) =~= mirs_view(bc0) + seq![MirS::Block(mirs_view(bv))]);
            }
            Ok(())
        },
        Expr::IfElse(cond, then_expr, else_expr) => {
            match compile_expr(cond, bytecode, locals) {
                Err(er) => {
                    return Err(er);
                },
                Ok(()) => {},
            }
            proof {
                lemma_lower_growth(**cond, t0);
            }
            let ghost t1 = tblv(locals@);
            let mut then_vec: Vec<Mir> = Vec::new();
            proof {
                assert(mirs_view(then_vec@) =~= Seq::<MirS>::empty());
            }
            match compile_expr(then_expr, &mut then_vec, locals) {
                Err(er) => {
                    return Err(er);
                },
                Ok(()) => {},
            }
            proof {
                lemma_lower_growth(**then_expr, t1);
                if let Ok(p2) = lower_expr(**then_expr, t1) {
                    assert(mirs_view(then_vec@) =~= Seq::<MirS>::empty() + p2.0);
                    assert(mirs_view(then_vec@) =~= p2.0);
                }
            }
            let ghost bc1 = bytecode@;
            match else_expr {
                Some(ee) => {
                    let ghost t2 = tblv(locals@);
                    let mut else_vec: Vec<Mir> = Vec::new();
                    proof {
                        assert(mirs_view(else_vec@) =~= Seq::<MirS>::empty());
                    }
                    match compile_expr(ee, &mut else_vec, locals) {
                        Err(er) => {
                            return Err(er);
                        },
                        Ok(()) => {},
                    }
                    proof {
                        if let Ok(p3) = lower_expr(**ee, t2) {
                            assert(mirs_view(else_vec@) =~= Seq::<MirS>::empty() + p3.0);
                            assert(mirs_view(else_vec@) =~= p3.0);
                        }
                    }
                    let ghost tv = then_vec@;
                    let ghost ev = else_vec@;
                    let m = Mir::IfElse(then_vec, Some(else_vec));
                    let ghost ms = m;
                    bytecode.push(m);
                    proof {
                        lemma_mirs_view_push(bc1, ms);
                        assert(mir_view(ms) == MirS::IfElse(mirs_view(tv), Some(mirs_view(ev))));
                        assert(mirs_view(bytecode@) =~= mirs_view(bc1).push(mir_view(ms)));
                    }
                    Ok(())
                },
                None => {
                    let ghost tv = then_vec@;
                    let m = Mir::IfElse(then_vec, None);
                    let ghost ms = m;
                    bytecode.push(m);
                    proof {
                        lemma_mirs_view_push(bc1, ms);
                        assert(mir_view(ms) == MirS::IfElse(mirs_view(tv), None));
                        assert(mirs_view(bytecode@) =~= mirs_view(bc1).push(mir_view(ms)));
                    }
                    Ok(())
                },
            }
        },
        _ => Err(CompileError::UnsupportedExpression),
    }
}

/// Convert an AST to a sequence of stack-machine instructions, starting from
/// an empty slot table.
pub fn compile(ast: &Expr) -> (r: Result<Vec<Mir>, CompileError>)
    requires
        alloc_sites(*ast) <= u32::MAX,
    ensures
        ({
            let res = lower_program(*ast);
            match r {
                Ok(code) => res matches Ok(c) && mirs_view(code@) == c,
                Err(er) => res == Err::<Seq<MirS>, CompileError>(er),
            }
        }),
{
    let mut bytecode: Vec<Mir> = Vec::new();
    let mut locals: Vec<String> = Vec::new();
    proof {
        assert(tblv(locals@) =~= Seq::<Seq<char>>::empty());
        assert(mirs_view(bytecode@) =~= Seq::<MirS>::empty());
    }
    match compile_expr(ast, &mut bytecode, &mut locals) {
        Ok(()) => {
            proof {
                if let Ok(p) = lower_expr(*ast, Seq::empty()) {
                    assert(mirs_view(bytecode@) =~= Seq::<MirS>::empty() + p.0);
                    assert(mirs_view(bytecode@) =~= p.0);
                }
            }
            Ok(bytecode)
        },
        Err(er) => Err(er),
    }
}

/// As `compile`, for any input whatsoever: first checks that the tree's
/// slot allocations fit the 32-bit index space — any tree that fits in
/// memory does — and reports the input as unsupported otherwise.
pub fn compile_checked(ast: &Expr) -> (r: Result<Vec<Mir>, CompileError>)
    ensures
        alloc_sites(*ast) <= u32::MAX ==> ({
            let res = lower_program(*ast);
            match r {
                Ok(code) => res matches Ok(c) && mirs_view(code@) == c,
                Err(er) => res == Err::<Seq<MirS>, CompileError>(er),
            }
        }),
        alloc_sites(*ast) > u32::MAX ==> r == Err::<Vec<Mir>, CompileError>(
            CompileError::UnsupportedExpression,
        ),
{
    let n = count_sites(ast);
    if n <= 0xFFFF_FFFFu64 {
        compile(ast)
    } else {
        Err(CompileError::UnsupportedExpression)
    }
}

} // verus!
