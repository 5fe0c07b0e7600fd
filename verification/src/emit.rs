//! Code generation from the stack-machine IR to WebAssembly-level
//! instructions.
//!
//! The translation is mostly one instruction to one instruction, with three
//! twists that this module makes exact:
//! - every comparison natively leaves a 32-bit boolean-like result, so each
//!   one is immediately widened (zero-extended) back to the uniform 64-bit
//!   working width;
//! - a conditional's test value is narrowed (wrapped) to the 32-bit test
//!   width right before branching;
//! - logical local slots are bound to concrete storage lazily: a slot gets
//!   the next storage index the first time a get/set/tee mentions it, and
//!   that binding is shared by the whole module (the materialization table).
//!
//! A conditional with no else branch, a loop, and an explicit drop are not
//! emitted: the structured target format refuses a result-carrying
//! conditional without an else arm, and the remaining two have no source
//! form; all three are reported as `UnsupportedInstruction`.

use vstd::prelude::*;
use crate::mir::Mir;
use crate::mir::MirS;
use crate::mir::lemma_mirs_view_index;
use crate::mir::lemma_mirs_view_len;
use crate::mir::mir_view;
use crate::mir::mirs_view;

verus! {

/// WebAssembly-level instructions, over materialized storage indices.
#[derive(Debug, PartialEq)]
pub enum WasmOp {
    I64Const(i64),
    I64Add,
    I64Sub,
    I64Mul,
    I64DivS,
    I64RemS,
    I64Eq,
    I64Ne,
    I64LtS,
    I64LeS,
    I64GtS,
    I64GeS,
    /// Widen a comparison's 32-bit result to 64 bits, zero-extending.
    I64ExtendUI32,
    /// Narrow a conditional's test value to the 32-bit test width.
    I32WrapI64,
    LocalGet(usize),
    LocalSet(usize),
    LocalTee(usize),
    Block(Vec<WasmOp>),
    IfElse(Vec<WasmOp>, Vec<WasmOp>),
}

/// Mathematical mirror of `WasmOp`.
#[verifier::ext_equal]
pub enum WasmS {
    I64Const(i64),
    I64Add,
    I64Sub,
    I64Mul,
    I64DivS,
    I64RemS,
    I64Eq,
    I64Ne,
    I64LtS,
    I64LeS,
    I64GtS,
    I64GeS,
    I64ExtendUI32,
    I32WrapI64,
    LocalGet(int),
    LocalSet(int),
    LocalTee(int),
    Block(Seq<WasmS>),
    IfElse(Seq<WasmS>, Seq<WasmS>),
}

/// Abstraction of one instruction.
pub open spec fn wasm_view(w: WasmOp) -> WasmS
    decreases w,
{
    match w {
        WasmOp::I64Const(n) => WasmS::I64Const(n),
        WasmOp::I64Add => WasmS::I64Add,
        WasmOp::I64Sub => WasmS::I64Sub,
        WasmOp::I64Mul => WasmS::I64Mul,
        WasmOp::I64DivS => WasmS::I64DivS,
        WasmOp::I64RemS => WasmS::I64RemS,
        WasmOp::I64Eq => WasmS::I64Eq,
        WasmOp::I64Ne => WasmS::I64Ne,
        WasmOp::I64LtS => WasmS::I64LtS,
        WasmOp::I64LeS => WasmS::I64LeS,
        WasmOp::I64GtS => WasmS::I64GtS,
        WasmOp::I64GeS => WasmS::I64GeS,
        WasmOp::I64ExtendUI32 => WasmS::I64ExtendUI32,
        WasmOp::I32WrapI64 => WasmS::I32WrapI64,
        WasmOp::LocalGet(i) => WasmS::LocalGet(i as int),
        WasmOp::LocalSet(i) => WasmS::LocalSet(i as int),
        WasmOp::LocalTee(i) => WasmS::LocalTee(i as int),
        WasmOp::Block(ops) => WasmS::Block(wasms_view(ops@)),
        WasmOp::IfElse(th, el) => WasmS::IfElse(wasms_view(th@), wasms_view(el@)),
    }
}

/// Abstraction of an instruction sequence.
pub open spec fn wasms_view(s: Seq<WasmOp>) -> Seq<WasmS>
    decreases s,
{
    if s.len() == 0 {
        Seq::empty()
    } else {
        seq![wasm_view(s.first())] + wasms_view(s.drop_first())
    }
}

pub proof fn lemma_wasms_view_index(s: Seq<WasmOp>, i: int)
    requires
        0 <= i < s.len(),
    ensures
        wasms_view(s).len() == s.len(),
        wasms_view(s)[i] == wasm_view(s[i]),
    decreases s,
{
    lemma_wasms_view_len(s);
    if i > 0 {
        lemma_wasms_view_index(s.drop_first(), i - 1);
    }
}

pub proof fn lemma_wasms_view_len(s: Seq<WasmOp>)
    ensures
        wasms_view(s).len() == s.len(),
    decreases s,
{
    if s.len() > 0 {
        lemma_wasms_view_len(s.drop_first());
    }
}

pub proof fn lemma_wasms_view_push(s: Seq<WasmOp>, w: WasmOp)
    ensures
        wasms_view(s.push(w)) =~= wasms_view(s).push(wasm_view(w)),
{
    lemma_wasms_view_len(s);
    lemma_wasms_view_len(s.push(w));
    assert forall|i: int| 0 <= i < s.len() + 1 implies wasms_view(s.push(w))[i] == wasms_view(
        s,
    ).push(wasm_view(w))[i] by {
        lemma_wasms_view_index(s.push(w), i);
        if i < s.len() {
            lemma_wasms_view_index(s, i);
        }
    }
}

/// Why code generation can fail: an IR form it does not emit (a loop, an
/// explicit drop, or a result-carrying conditional with no else branch), a
/// context whose function builder was never set, or an emitted module that
/// the printer refuses.
#[derive(Debug, Clone, Copy, PartialEq, Eq)]
pub enum EmitError {
    UnsupportedInstruction,
    BuilderNotSet,
    InvalidModule,
}

/// The materialization table: the logical slot bound to storage index `i`
/// stands at position `i`, in first-use order.
pub type MatTable = Seq<u32>;

/// Outcome of emission: the machine code plus the table it grew.
pub type EmitResult = Result<(Seq<WasmS>, MatTable), EmitError>;

/// Position of the first occurrence of `slot` (the table never holds a slot
/// twice; meaningful only when the table contains `slot`).
pub open spec fn mat_index(mat: MatTable, slot: u32) -> int
    decreases mat.len(),
{
    if mat.len() == 0 {
        0
    } else if mat.first() == slot {
        0
    } else {
        1 + mat_index(mat.drop_first(), slot)
    }
}

/// Lazy materialization of one slot: the storage index it is already bound
/// to, or a fresh one bound now.
pub open spec fn materialize(mat: MatTable, slot: u32) -> (MatTable, int) {
    if mat.contains(slot) {
        (mat, mat_index(mat, slot))
    } else {
        (mat.push(slot), mat.len() as int)
    }
}

/// Emission of one IR instruction under a materialization table.
pub open spec fn emit_op(m: MirS, mat: MatTable) -> EmitResult
    decreases m,
{
    match m {
        MirS::ConstI64(n) => Ok((seq![WasmS::I64Const(n)], mat)),
        MirS::AddI64 => Ok((seq![WasmS::I64Add], mat)),
        MirS::SubI64 => Ok((seq![WasmS::I64Sub], mat)),
        MirS::MulI64 => Ok((seq![WasmS::I64Mul], mat)),
        MirS::DivI64 => Ok((seq![WasmS::I64DivS], mat)),
        MirS::ModI64 => Ok((seq![WasmS::I64RemS], mat)),
        MirS::GreaterThanI64 => Ok((seq![WasmS::I64GtS, WasmS::I64ExtendUI32], mat)),
        MirS::LessThanI64 => Ok((seq![WasmS::I64LtS, WasmS::I64ExtendUI32], mat)),
        MirS::EqualI64 => Ok((seq![WasmS::I64Eq, WasmS::I64ExtendUI32], mat)),
        MirS::NotEqualI64 => Ok((seq![WasmS::I64Ne, WasmS::I64ExtendUI32], mat)),
        MirS::GreaterThanOrEqualI64 => Ok((seq![WasmS::I64GeS, WasmS::I64ExtendUI32], mat)),
        MirS::LessThanOrEqualI64 => Ok((seq![WasmS::I64LeS, WasmS::I64ExtendUI32], mat)),
        MirS::LocalGet(k) => {
            let p = materialize(mat, k);
            Ok((seq![WasmS::LocalGet(p.1)], p.0))
        },
        MirS::LocalSet(k) => {
            let p = materialize(mat, k);
            Ok((seq![WasmS::LocalSet(p.1)], p.0))
        },
        MirS::LocalTee(k) => {
            let p = materialize(mat, k);
            Ok((seq![WasmS::LocalTee(p.1)], p.0))
        },
        MirS::Block(ops) => match emit_seq(ops, mat) {
            Ok((c, mat1)) => Ok((seq![WasmS::Block(c)], mat1)),
            Err(er) => Err(er),
        },
        MirS::IfElse(tc, el) => match el {
            Some(ec) => match emit_seq(tc, mat) {
                Ok((tw, mat1)) => match emit_seq(ec, mat1) {
                    Ok((ew, mat2)) => Ok(
                        (seq![WasmS::I32WrapI64, WasmS::IfElse(tw, ew)], mat2),
                    ),
                    Err(er) => Err(er),
                },
                Err(er) => Err(er),
            },
            None => Err(EmitError::UnsupportedInstruction),
        },
        MirS::Loop(_) => Err(EmitError::UnsupportedInstruction),
        MirS::Drop => Err(EmitError::UnsupportedInstruction),
    }
}

/// Emission of an instruction sequence, left to right, threading the table.
pub open spec fn emit_seq(s: Seq<MirS>, mat: MatTable) -> EmitResult
    decreases s,
{
    if s.len() == 0 {
        Ok((Seq::empty(), mat))
    } else {
        match emit_op(s.first(), mat) {
            Ok((c1, mat1)) => match emit_seq(s.drop_first(), mat1) {
                Ok((c2, mat2)) => Ok((c1 + c2, mat2)),
                Err(er) => Err(er),
            },
            Err(er) => Err(er),
        }
    }
}

/// Emission of a whole program: an empty table to begin with.
pub open spec fn emit_program(code: Seq<MirS>) -> EmitResult {
    emit_seq(code, Seq::empty())
}

/// All storage indices in the instruction are below `n`.
pub open spec fn wasm_wf(w: WasmS, n: int) -> bool
    decreases w,
{
    match w {
        WasmS::LocalGet(i) => 0 <= i < n,
        WasmS::LocalSet(i) => 0 <= i < n,
        WasmS::LocalTee(i) => 0 <= i < n,
        WasmS::Block(c) => wasm_seq_wf(c, n),
        WasmS::IfElse(t, e) => wasm_seq_wf(t, n) && wasm_seq_wf(e, n),
        _ => true,
    }
}

/// All storage indices in the sequence are below `n`.
pub open spec fn wasm_seq_wf(s: Seq<WasmS>, n: int) -> bool
    decreases s,
{
    s.len() == 0 || (wasm_wf(s.first(), n) && wasm_seq_wf(s.drop_first(), n))
}

pub proof fn lemma_wasm_wf_mono(w: WasmS, n: int, n2: int)
    requires
        n <= n2,
        wasm_wf(w, n),
    ensures
        wasm_wf(w, n2),
    decreases w,
{
    match w {
        WasmS::Block(c) => lemma_wasm_seq_wf_mono(c, n, n2),
        WasmS::IfElse(t, e) => {
            lemma_wasm_seq_wf_mono(t, n, n2);
            lemma_wasm_seq_wf_mono(e, n, n2);
        },
        _ => {},
    }
}

pub proof fn lemma_wasm_seq_wf_mono(s: Seq<WasmS>, n: int, n2: int)
    requires
        n <= n2,
        wasm_seq_wf(s, n),
    ensures
        wasm_seq_wf(s, n2),
    decreases s,
{
    if s.len() > 0 {
        lemma_wasm_wf_mono(s.first(), n, n2);
        lemma_wasm_seq_wf_mono(s.drop_first(), n, n2);
    }
}

pub proof fn lemma_wasm_seq_wf_concat(a: Seq<WasmS>, b: Seq<WasmS>, n: int)
    requires
        wasm_seq_wf(a, n),
        wasm_seq_wf(b, n),
    ensures
        wasm_seq_wf(a + b, n),
    decreases a,
{
    if a.len() == 0 {
        assert(a + b =~= b);
    } else {
        assert((a + b).first() == a.first());
        assert((a + b).drop_first() =~= a.drop_first() + b);
        lemma_wasm_seq_wf_concat(a.drop_first(), b, n);
    }
}

/// Emission never shrinks the materialization table.
pub proof fn lemma_emit_op_mat_grows(m: MirS, mat: MatTable)
    ensures
        emit_op(m, mat) matches Ok(p) ==> mat.len() <= p.1.len(),
    decreases m,
{
    match m {
        MirS::Block(ops) => lemma_emit_seq_mat_grows(ops, mat),
        MirS::IfElse(tc, el) => match el {
            Some(ec) => {
                lemma_emit_seq_mat_grows(tc, mat);
                match emit_seq(tc, mat) {
                    Ok(p1) => lemma_emit_seq_mat_grows(ec, p1.1),
                    Err(_) => {},
                }
            },
            None => {},
        },
        _ => {},
    }
}

pub proof fn lemma_emit_seq_mat_grows(s: Seq<MirS>, mat: MatTable)
    ensures
        emit_seq(s, mat) matches Ok(p) ==> mat.len() <= p.1.len(),
    decreases s,
{
    if s.len() > 0 {
        lemma_emit_op_mat_grows(s.first(), mat);
        match emit_op(s.first(), mat) {
            Ok(p1) => lemma_emit_seq_mat_grows(s.drop_first(), p1.1),
            Err(_) => {},
        }
    }
}

proof fn lemma_wf_singleton(w: WasmS, n: int)
    requires
        wasm_wf(w, n),
    ensures
        wasm_seq_wf(seq![w], n),
{
    assert(wasm_seq_wf(Seq::<WasmS>::empty(), n));
    assert(seq![w].first() == w);
    assert(seq![w].drop_first() =~= Seq::<WasmS>::empty());
    assert(wasm_seq_wf(seq![w].drop_first(), n));
}

proof fn lemma_wf_pair(a: WasmS, b: WasmS, n: int)
    requires
        wasm_wf(a, n),
        wasm_wf(b, n),
    ensures
        wasm_seq_wf(seq![a, b], n),
{
    assert(seq![a, b].first() == a);
    assert(seq![a, b].drop_first() =~= seq![b]);
    lemma_wf_singleton(b, n);
}

/// The first occurrence of a slot the table contains lies inside the
/// table, and holds that slot.
pub proof fn lemma_mat_index_bound(mat: MatTable, slot: u32)
    requires
        mat.contains(slot),
    ensures
        0 <= mat_index(mat, slot) < mat.len(),
        mat[mat_index(mat, slot)] == slot,
    decreases mat.len(),
{
    if mat.first() != slot {
        let i = choose|i: int| 0 <= i < mat.len() && mat[i] == slot;
        assert(mat.drop_first()[i - 1] == slot);
        lemma_mat_index_bound(mat.drop_first(), slot);
    }
}

/// Emission keeps the table free of duplicates and only appends to it.
pub proof fn lemma_emit_op_mat_nodup(m: MirS, mat: MatTable)
    requires
        mat.no_duplicates(),
    ensures
        emit_op(m, mat) matches Ok(p) ==> p.1.no_duplicates() && p.1.take(mat.len() as int)
            == mat,
    decreases m,
{
    match m {
        MirS::LocalGet(k) => lemma_materialize_nodup(mat, k),
        MirS::LocalSet(k) => lemma_materialize_nodup(mat, k),
        MirS::LocalTee(k) => lemma_materialize_nodup(mat, k),
        MirS::Block(ops) => lemma_emit_seq_mat_nodup(ops, mat),
        MirS::IfElse(tc, el) => match el {
            Some(ec) => {
                lemma_emit_seq_mat_nodup(tc, mat);
                match emit_seq(tc, mat) {
                    Ok(p1) => {
                        lemma_emit_seq_mat_nodup(ec, p1.1);
                        match emit_seq(ec, p1.1) {
                            Ok(p2) => {
                                lemma_emit_seq_mat_grows(tc, mat);
                                lemma_emit_seq_mat_grows(ec, p1.1);
                                lemma_mat_prefix_trans(mat, p1.1, p2.1);
                            },
                            Err(_) => {},
                        }
                    },
                    Err(_) => {},
                }
            },
            None => {},
        },
        _ => {
            assert(mat.take(mat.len() as int) =~= mat);
        },
    }
}

proof fn lemma_materialize_nodup(mat: MatTable, k: u32)
    requires
        mat.no_duplicates(),
    ensures
        materialize(mat, k).0.no_duplicates(),
        materialize(mat, k).0.take(mat.len() as int) == mat,
{
    if mat.contains(k) {
        assert(mat.take(mat.len() as int) =~= mat);
    } else {
        let m2 = mat.push(k);
        assert forall|i: int, j: int| 0 <= i < j < m2.len() implies m2[i] != m2[j] by {
            if j < mat.len() {
            } else {
                assert(m2[j] == k);
                assert(m2[i] == mat[i]);
            }
        }
        assert(m2.take(mat.len() as int) =~= mat);
    }
}

pub proof fn lemma_emit_seq_mat_nodup(s: Seq<MirS>, mat: MatTable)
    requires
        mat.no_duplicates(),
    ensures
        emit_seq(s, mat) matches Ok(p) ==> p.1.no_duplicates() && p.1.take(mat.len() as int)
            == mat,
    decreases s,
{
    if s.len() == 0 {
        assert(mat.take(mat.len() as int) =~= mat);
    } else {
        lemma_emit_op_mat_nodup(s.first(), mat);
        match emit_op(s.first(), mat) {
            Ok(p1) => {
                lemma_emit_seq_mat_nodup(s.drop_first(), p1.1);
                match emit_seq(s.drop_first(), p1.1) {
                    Ok(p2) => {
                        lemma_emit_op_mat_grows(s.first(), mat);
                        lemma_emit_seq_mat_grows(s.drop_first(), p1.1);
                        lemma_mat_prefix_trans(mat, p1.1, p2.1);
                    },
                    Err(_) => {},
                }
            },
            Err(_) => {},
        }
    }
}

/// What emission produces is well formed for the table it ends with: every
/// storage index points into that table.
pub proof fn lemma_emit_op_wf(m: MirS, mat: MatTable)
    ensures
        emit_op(m, mat) matches Ok(p) ==> wasm_seq_wf(p.0, p.1.len() as int),
    decreases m,
{
    match m {
        MirS::ConstI64(n) => lemma_wf_singleton(WasmS::I64Const(n), mat.len() as int),
        MirS::AddI64 => lemma_wf_singleton(WasmS::I64Add, mat.len() as int),
        MirS::SubI64 => lemma_wf_singleton(WasmS::I64Sub, mat.len() as int),
        MirS::MulI64 => lemma_wf_singleton(WasmS::I64Mul, mat.len() as int),
        MirS::DivI64 => lemma_wf_singleton(WasmS::I64DivS, mat.len() as int),
        MirS::ModI64 => lemma_wf_singleton(WasmS::I64RemS, mat.len() as int),
        MirS::GreaterThanI64 => lemma_wf_pair(
            WasmS::I64GtS,
            WasmS::I64ExtendUI32,
            mat.len() as int,
        ),
        MirS::LessThanI64 => lemma_wf_pair(WasmS::I64LtS, WasmS::I64ExtendUI32, mat.len() as int),
        MirS::EqualI64 => lemma_wf_pair(WasmS::I64Eq, WasmS::I64ExtendUI32, mat.len() as int),
        MirS::NotEqualI64 => lemma_wf_pair(WasmS::I64Ne, WasmS::I64ExtendUI32, mat.len() as int),
        MirS::GreaterThanOrEqualI64 => lemma_wf_pair(
            WasmS::I64GeS,
            WasmS::I64ExtendUI32,
            mat.len() as int,
        ),
        MirS::LessThanOrEqualI64 => lemma_wf_pair(
            WasmS::I64LeS,
            WasmS::I64ExtendUI32,
            mat.len() as int,
        ),
        MirS::LocalGet(k) => {
            let p = materialize(mat, k);
            if mat.contains(k) {
                lemma_mat_index_bound(mat, k);
            }
            lemma_wf_singleton(WasmS::LocalGet(p.1), p.0.len() as int);
        },
        MirS::LocalSet(k) => {
            let p = materialize(mat, k);
            if mat.contains(k) {
                lemma_mat_index_bound(mat, k);
            }
            lemma_wf_singleton(WasmS::LocalSet(p.1), p.0.len() as int);
        },
        MirS::LocalTee(k) => {
            let p = materialize(mat, k);
            if mat.contains(k) {
                lemma_mat_index_bound(mat, k);
            }
            lemma_wf_singleton(WasmS::LocalTee(p.1), p.0.len() as int);
        },
        MirS::Block(ops) => {
            lemma_emit_seq_wf(ops, mat);
            match emit_seq(ops, mat) {
                Ok(p1) => {
                    lemma_wf_singleton(WasmS::Block(p1.0), p1.1.len() as int);
                },
                Err(_) => {},
            }
        },
        MirS::IfElse(tc, el) => match el {
            Some(ec) => {
                lemma_emit_seq_wf(tc, mat);
                match emit_seq(tc, mat) {
                    Ok(p1) => {
                        lemma_emit_seq_wf(ec, p1.1);
                        match emit_seq(ec, p1.1) {
                            Ok(p2) => {
                                lemma_emit_seq_mat_grows(ec, p1.1);
                                lemma_wasm_seq_wf_mono(p1.0, p1.1.len() as int, p2.1.len() as int);
                                lemma_wf_pair(
                                    WasmS::I32WrapI64,
                                    WasmS::IfElse(p1.0, p2.0),
                                    p2.1.len() as int,
                                );
                            },
                            Err(_) => {},
                        }
                    },
                    Err(_) => {},
                }
            },
            None => {},
        },
        MirS::Loop(_) => {},
        MirS::Drop => {},
    }
}

pub proof fn lemma_mat_index_found(mat: MatTable, slot: u32, i: int)
    requires
        0 <= i < mat.len(),
        mat[i] == slot,
        forall|j: int| 0 <= j < i ==> mat[j] != slot,
    ensures
        mat.contains(slot),
        mat_index(mat, slot) == i,
    decreases i,
{
    if i == 0 {
        assert(mat.first() == slot);
    } else {
        assert(mat.first() != slot);
        assert forall|j: int| 0 <= j < i - 1 implies mat.drop_first()[j] != slot by {
            assert(mat.drop_first()[j] == mat[j + 1]);
        }
        assert(mat.drop_first()[i - 1] == slot);
        lemma_mat_index_found(mat.drop_first(), slot, i - 1);
    }
}

/// Storage index of `slot`, binding it to the next free index on first use.
fn mat_slot(mat: &mut Vec<u32>, slot: u32) -> (idx: usize)
    ensures
        ({
            let p = materialize(old(mat)@, slot);
            final(mat)@ == p.0 && idx as int == p.1
        }),
{
    let n = mat.len();
    let mut i: usize = 0;
    while i < n
        invariant
            i <= n == mat@.len(),
            mat@ == old(mat)@,
            forall|j: int| 0 <= j < i ==> mat@[j] != slot,
        decreases n - i,
    {
        if mat[i] == slot {
            proof {
                lemma_mat_index_found(mat@, slot, i as int);
            }
            return i;
        }
        i = i + 1;
    }
    proof {
        assert(!mat@.contains(slot));
    }
    mat.push(slot);
    n
}

/// Prefix order on materialization tables is transitive.
proof fn lemma_mat_prefix_trans(a: MatTable, b: MatTable, c: MatTable)
    requires
        a.len() <= b.len() <= c.len(),
        b.take(a.len() as int) == a,
        c.take(b.len() as int) == b,
    ensures
        c.take(a.len() as int) == a,
{
    assert forall|i: int| 0 <= i < a.len() implies c.take(a.len() as int)[i] == a[i] by {
        assert(b.take(a.len() as int)[i] == a[i]);
        assert(c.take(b.len() as int)[i] == b[i]);
    }
    assert(c.take(a.len() as int) =~= a);
}

/// Append one machine instruction, keeping the abstraction in step.
fn push_op(out: &mut Vec<WasmOp>, w: WasmOp)
    ensures
        wasms_view(final(out)@) == wasms_view(old(out)@).push(wasm_view(w)),
{
    let ghost ws = w;
    out.push(w);
    proof {
        lemma_wasms_view_push(old(out)@, ws);
    }
}

/// Emit one IR instruction, appending its machine code to `out` and growing
/// the materialization table, exactly as `emit_op` says.
#[verifier::rlimit(100)]
pub(crate) fn emit_one(op: &Mir, mat: &mut Vec<u32>, out: &mut Vec<WasmOp>) -> (r: Result<(), EmitError>)
    ensures
        final(mat)@.len() >= old(mat)@.len(),
        final(mat)@.take(old(mat)@.len() as int) == old(mat)@,
        ({
            let res = emit_op(mir_view(*op), old(mat)@);
            match r {
                Ok(u) => res matches Ok(p) && wasms_view(final(out)@) == wasms_view(old(out)@)
                    + p.0 && final(mat)@ == p.1,
                Err(er) => res == Err::<(Seq<WasmS>, MatTable), EmitError>(er),
            }
        }),
    decreases *op,
{
    proof {
        assert(mat@.take(mat@.len() as int) =~= mat@);
    }
    let ghost out0 = out@;
    match op {
        Mir::ConstI64(n) => {
            push_op(out, WasmOp::I64Const(*n));
            proof {
                assert(wasms_view(out@) =~= wasms_view(out0) + seq![WasmS::I64Const(*n)]);
            }
            Ok(())
        },
        Mir::AddI64 => {
            push_op(out, WasmOp::I64Add);
            proof {
                assert(wasms_view(out@) =~= wasms_view(out0) + seq![WasmS::I64Add]);
            }
            Ok(())
        },
        Mir::SubI64 => {
            push_op(out, WasmOp::I64Sub);
            proof {
                assert(wasms_view(out@) =~= wasms_view(out0) + seq![WasmS::I64Sub]);
            }
            Ok(())
        },
        Mir::MulI64 => {
            push_op(out, WasmOp::I64Mul);
            proof {
                assert(wasms_view(out@) =~= wasms_view(out0) + seq![WasmS::I64Mul]);
            }
            Ok(())
        },
        Mir::DivI64 => {
            push_op(out, WasmOp::I64DivS);
            proof {
                assert(wasms_view(out@) =~= wasms_view(out0) + seq![WasmS::I64DivS]);
            }
            Ok(())
        },
        Mir::ModI64 => {
            push_op(out, WasmOp::I64RemS);
            proof {
                assert(wasms_view(out@) =~= wasms_view(out0) + seq![WasmS::I64RemS]);
            }
            Ok(())
        },
        Mir::GreaterThanI64 => {
            push_op(out, WasmOp::I64GtS);
            push_op(out, WasmOp::I64ExtendUI32);
            proof {
                assert(wasms_view(out@) =~= wasms_view(out0) + seq![WasmS::I64GtS, WasmS::I64ExtendUI32]);
            }
            Ok(())
        },
        Mir::LessThanI64 => {
            push_op(out, WasmOp::I64LtS);
            push_op(out, WasmOp::I64ExtendUI32);
            proof {
                assert(wasms_view(out@) =~= wasms_view(out0) + seq![WasmS::I64LtS, WasmS::I64ExtendUI32]);
            }
            Ok(())
        },
        Mir::EqualI64 => {
            push_op(out, WasmOp::I64Eq);
            push_op(out, WasmOp::I64ExtendUI32);
            proof {
                assert(wasms_view(out@) =~= wasms_view(out0) + seq![WasmS::I64Eq, WasmS::I64ExtendUI32]);
            }
            Ok(())
        },
        Mir::NotEqualI64 => {
            push_op(out, WasmOp::I64Ne);
            push_op(out, WasmOp::I64ExtendUI32);
            proof {
                assert(wasms_view(out@) =~= wasms_view(out0) + seq![WasmS::I64Ne, WasmS::I64ExtendUI32]);
            }
            Ok(())
        },
        Mir::GreaterThanOrEqualI64 => {
            push_op(out, WasmOp::I64GeS);
            push_op(out, WasmOp::I64ExtendUI32);
            proof {
                assert(wasms_view(out@) =~= wasms_view(out0) + seq![WasmS::I64GeS, WasmS::I64ExtendUI32]);
            }
            Ok(())
        },
        Mir::LessThanOrEqualI64 => {
            push_op(out, WasmOp::I64LeS);
            push_op(out, WasmOp::I64ExtendUI32);
            proof {
                assert(wasms_view(out@) =~= wasms_view(out0) + seq![WasmS::I64LeS, WasmS::I64ExtendUI32]);
            }
            Ok(())
        },
        Mir::LocalGet(k) => {
            let idx = mat_slot(mat, *k);
            push_op(out, WasmOp::LocalGet(idx));
            proof {
                assert(wasms_view(out@) =~= wasms_view(out0) + seq![WasmS::LocalGet(idx as int)]);
            }
            Ok(())
        },
        Mir::LocalSet(k) => {
            let idx = mat_slot(mat, *k);
            push_op(out, WasmOp::LocalSet(idx));
            proof {
                assert(wasms_view(out@) =~= wasms_view(out0) + seq![WasmS::LocalSet(idx as int)]);
            }
            Ok(())
        },
        Mir::LocalTee(k) => {
            let idx = mat_slot(mat, *k);
            push_op(out, WasmOp::LocalTee(idx));
            proof {
                assert(wasms_view(out@) =~= wasms_view(out0) + seq![WasmS::LocalTee(idx as int)]);
            }
            Ok(())
        },
        Mir::Block(ops) => {
            let mut inner: Vec<WasmOp> = Vec::new();
            proof {
                assert(wasms_view(inner@) =~= Seq::<WasmS>::empty());
            }
            match emit_ops(ops, mat, &mut inner) {
                Err(er) => {
                    return Err(er);
                },
                Ok(()) => {},
            }
            proof {
                if let Ok(p1) = emit_seq(mirs_view(ops@), old(mat)@) {
                    assert(wasms_view(inner@) =~= Seq::<WasmS>::empty() + p1.0);
                    assert(wasms_view(inner@) =~= p1.0);
                }
            }
            let ghost iv = inner@;
            let w = WasmOp::Block(inner);
            let ghost ws = w;
            out.push(w);
            proof {
                lemma_wasms_view_push(out0, ws);
                assert(wasm_view(ws) == WasmS::Block(wasms_view(iv)));
                assert(wasms_view(out@) =~= wasms_view(out0) + seq![wasm_view(ws)]);
            }
            Ok(())
        },
        Mir::Loop(_) => Err(EmitError::UnsupportedInstruction),
        Mir::IfElse(tc, el) => match el {
            Some(ec) => {
                let mut tw: Vec<WasmOp> = Vec::new();
                proof {
                    assert(wasms_view(tw@) =~= Seq::<WasmS>::empty());
                }
                match emit_ops(tc, mat, &mut tw) {
                    Err(er) => {
                        return Err(er);
                    },
                    Ok(()) => {},
                }
                let ghost mat1 = mat@;
                proof {
                    if let Ok(p1) = emit_seq(mirs_view(tc@), old(mat)@) {
                        assert(wasms_view(tw@) =~= Seq::<WasmS>::empty() + p1.0);
                        assert(wasms_view(tw@) =~= p1.0);
                    }
                }
                let mut ew: Vec<WasmOp> = Vec::new();
                proof {
                    assert(wasms_view(ew@) =~= Seq::<WasmS>::empty());
                }
                match emit_ops(ec, mat, &mut ew) {
                    Err(er) => {
                        return Err(er);
                    },
                    Ok(()) => {},
                }
                proof {
                    if let Ok(p2) = emit_seq(mirs_view(ec@), mat1) {
                        assert(wasms_view(ew@) =~= Seq::<WasmS>::empty() + p2.0);
                        assert(wasms_view(ew@) =~= p2.0);
                    }
                }
                push_op(out, WasmOp::I32WrapI64);
                let ghost out_mid = out@;
                let ghost tv = tw@;
                let ghost ev = ew@;
                let w = WasmOp::IfElse(tw, ew);
                let ghost ws = w;
                out.push(w);
                proof {
                    lemma_wasms_view_push(out_mid, ws);
                    assert(wasm_view(ws) == WasmS::IfElse(wasms_view(tv), wasms_view(ev)));
                    assert(wasms_view(out@) =~= wasms_view(out0) + seq![WasmS::I32WrapI64, wasm_view(ws)]);
                }
                Ok(())
            },
            None => Err(EmitError::UnsupportedInstruction),
        },
        Mir::Drop => Err(EmitError::UnsupportedInstruction),
    }
}

pub proof fn lemma_emit_seq_skip_unfold(s: Seq<MirS>, k: int, mat: MatTable)
    requires
        0 <= k < s.len(),
    ensures
        emit_seq(s.skip(k), mat) == (match emit_op(s[k], mat) {
            Ok(p1) => match emit_seq(s.skip(k + 1), p1.1) {
                Ok(p2) => Ok::<(Seq<WasmS>, MatTable), EmitError>((p1.0 + p2.0, p2.1)),
                Err(er) => Err(er),
            },
            Err(er) => Err(er),
        }),
{
    assert(s.skip(k).first() == s[k]);
    assert(s.skip(k).drop_first() =~= s.skip(k + 1));
}

/// Emit an instruction sequence, appending its machine code to `out` and
/// growing the materialization table, exactly as `emit_seq` says.
pub fn emit_ops(ops: &Vec<Mir>, mat: &mut Vec<u32>, out: &mut Vec<WasmOp>) -> (r: Result<
    (),
    EmitError,
>)
    ensures
        final(mat)@.len() >= old(mat)@.len(),
        final(mat)@.take(old(mat)@.len() as int) == old(mat)@,
        ({
            let res = emit_seq(mirs_view(ops@), old(mat)@);
            match r {
                Ok(u) => res matches Ok(p) && wasms_view(final(out)@) == wasms_view(old(out)@)
                    + p.0 && final(mat)@ == p.1,
                Err(er) => res == Err::<(Seq<WasmS>, MatTable), EmitError>(er),
            }
        }),
    decreases ops@,
{
    proof {
        assert(mat@.take(mat@.len() as int) =~= mat@);
    }
    let ghost s = mirs_view(ops@);
    let ghost mat0 = mat@;
    let ghost out0 = out@;
    let ghost mut acc: Seq<WasmS> = Seq::empty();
    proof {
        lemma_mirs_view_len(ops@);
        assert(s.skip(0) =~= s);
        assert(wasms_view(out@) =~= wasms_view(out0) + acc);
    }
    let mut k: usize = 0;
    while k < ops.len()
        invariant
            k <= ops@.len(),
            s == mirs_view(ops@),
            s.len() == ops@.len(),
            mat0 == old(mat)@,
            out0 == old(out)@,
            mat@.len() >= mat0.len(),
            mat@.take(mat0.len() as int) == mat0,
            wasms_view(out@) == wasms_view(out0) + acc,
            (emit_seq(s.skip(k as int), mat@) matches Ok(p2) ==> emit_seq(s, mat0) matches Ok(q)
                && q.0 == acc + p2.0 && q.1 == p2.1),
            (emit_seq(s.skip(k as int), mat@) matches Err(er) ==> emit_seq(s, mat0) == Err::<
                (Seq<WasmS>, MatTable),
                EmitError,
            >(er)),
        decreases ops@.len() - k,
    {
        proof {
            lemma_emit_seq_skip_unfold(s, k as int, mat@);
            lemma_mirs_view_index(ops@, k as int);
        }
        let ghost mat_before = mat@;
        let ghost out_before = out@;
        match emit_one(&ops[k], mat, out) {
            Err(er) => {
                proof {
                    lemma_mat_prefix_trans(mat0, mat_before, mat@);
                }
                return Err(er);
            },
            Ok(()) => {},
        }
        proof {
            lemma_mat_prefix_trans(mat0, mat_before, mat@);
            if let Ok(p1) = emit_op(s[k as int], mat_before) {
                let acc_old = acc;
                acc = acc + p1.0;
                assert(wasms_view(out@) =~= wasms_view(out0) + acc);
                if let Ok(p2) = emit_seq(s.skip(k + 1), mat@) {
                    assert(acc_old + (p1.0 + p2.0) =~= acc + p2.0);
                }
            }
        }
        k = k + 1;
    }
    proof {
        assert(s.skip(s.len() as int) =~= Seq::<MirS>::empty());
        let matn = mat@;
        assert(emit_seq(s.skip(s.len() as int), matn) == Ok::<(Seq<WasmS>, MatTable), EmitError>(
            (Seq::empty(), matn),
        ));
        if let Ok(q) = emit_seq(s, mat0) {
            assert(q.0 =~= acc + Seq::<WasmS>::empty());
        }
    }
    Ok(())
}

/// The six comparison instructions, whose native result is 32 bits wide.
pub open spec fn is_cmp(w: WasmS) -> bool {
    match w {
        WasmS::I64Eq => true,
        WasmS::I64Ne => true,
        WasmS::I64LtS => true,
        WasmS::I64LeS => true,
        WasmS::I64GtS => true,
        WasmS::I64GeS => true,
        _ => false,
    }
}

/// Inside this instruction, every comparison is immediately widened.
pub open spec fn cmp_widened_op(w: WasmS) -> bool
    decreases w,
{
    match w {
        WasmS::Block(c) => cmp_widened_seq(c),
        WasmS::IfElse(t, e) => cmp_widened_seq(t) && cmp_widened_seq(e),
        _ => true,
    }
}

/// In this sequence and all its nested bodies, every comparison is
/// immediately followed by the widening conversion.
pub open spec fn cmp_widened_seq(s: Seq<WasmS>) -> bool
    decreases s,
{
    &&& forall|i: int| 0 <= i < s.len() ==> cmp_widened_op(#[trigger] s[i])
    &&& forall|i: int|
        0 <= i < s.len() && is_cmp(#[trigger] s[i]) ==> i + 1 < s.len() && s[i + 1]
            == WasmS::I64ExtendUI32
}

/// A sequence that is widened throughout and does not end in a bare
/// comparison: the shape of everything emission produces, closed under
/// concatenation.
pub open spec fn cmp_widened_unit(s: Seq<WasmS>) -> bool {
    cmp_widened_seq(s) && (s.len() > 0 ==> !is_cmp(s.last()))
}

proof fn lemma_cmp_widened_unit_concat(a: Seq<WasmS>, b: Seq<WasmS>)
    requires
        cmp_widened_unit(a),
        cmp_widened_unit(b),
    ensures
        cmp_widened_unit(a + b),
{
    let c = a + b;
    assert forall|i: int| 0 <= i < c.len() implies cmp_widened_op(#[trigger] c[i]) by {
        if i < a.len() {
            assert(c[i] == a[i]);
        } else {
            assert(c[i] == b[i - a.len()]);
        }
    }
    assert forall|i: int| 0 <= i < c.len() && is_cmp(#[trigger] c[i]) implies i + 1 < c.len() && c[i
        + 1] == WasmS::I64ExtendUI32 by {
        if i < a.len() {
            assert(c[i] == a[i]);
            assert(i + 1 < a.len()) by {
                if i + 1 == a.len() {
                    assert(a.last() == a[i]);
                }
            }
            assert(c[i + 1] == a[i + 1]);
        } else {
            assert(c[i] == b[i - a.len()]);
            assert(c[i + 1] == b[i + 1 - a.len()]);
        }
    }
    if c.len() > 0 {
        if b.len() > 0 {
            assert(c.last() == b.last());
        } else {
            assert(c.last() == a.last());
        }
    }
}

proof fn lemma_cmp_widened_single(w: WasmS)
    requires
        cmp_widened_op(w),
        !is_cmp(w),
    ensures
        cmp_widened_unit(seq![w]),
{
    assert(seq![w][0] == w);
}

proof fn lemma_cmp_widened_pair(w: WasmS)
    requires
        is_cmp(w),
    ensures
        cmp_widened_unit(seq![w, WasmS::I64ExtendUI32]),
{
    let s = seq![w, WasmS::I64ExtendUI32];
    assert(s[0] == w);
    assert(s[1] == WasmS::I64ExtendUI32);
    assert(s.last() == WasmS::I64ExtendUI32);
}

/// The widening law of emission: in everything the code generator
/// produces, each comparison instruction is immediately followed by the
/// widening conversion back to the 64-bit working width — in the top-level
/// sequence and in every nested block and branch body alike.
pub proof fn lemma_emit_op_widens_comparisons(m: MirS, mat: MatTable)
    ensures
        emit_op(m, mat) matches Ok(p) ==> cmp_widened_unit(p.0),
    decreases m,
{
    match m {
        MirS::ConstI64(n) => lemma_cmp_widened_single(WasmS::I64Const(n)),
        MirS::AddI64 => lemma_cmp_widened_single(WasmS::I64Add),
        MirS::SubI64 => lemma_cmp_widened_single(WasmS::I64Sub),
        MirS::MulI64 => lemma_cmp_widened_single(WasmS::I64Mul),
        MirS::DivI64 => lemma_cmp_widened_single(WasmS::I64DivS),
        MirS::ModI64 => lemma_cmp_widened_single(WasmS::I64RemS),
        MirS::GreaterThanI64 => lemma_cmp_widened_pair(WasmS::I64GtS),
        MirS::LessThanI64 => lemma_cmp_widened_pair(WasmS::I64LtS),
        MirS::EqualI64 => lemma_cmp_widened_pair(WasmS::I64Eq),
        MirS::NotEqualI64 => lemma_cmp_widened_pair(WasmS::I64Ne),
        MirS::GreaterThanOrEqualI64 => lemma_cmp_widened_pair(WasmS::I64GeS),
        MirS::LessThanOrEqualI64 => lemma_cmp_widened_pair(WasmS::I64LeS),
        MirS::LocalGet(k) => lemma_cmp_widened_single(
            WasmS::LocalGet(materialize(mat, k).1),
        ),
        MirS::LocalSet(k) => lemma_cmp_widened_single(
            WasmS::LocalSet(materialize(mat, k).1),
        ),
        MirS::LocalTee(k) => lemma_cmp_widened_single(
            WasmS::LocalTee(materialize(mat, k).1),
        ),
        MirS::Block(ops) => {
            lemma_emit_seq_widens_comparisons(ops, mat);
            match emit_seq(ops, mat) {
                Ok(p1) => lemma_cmp_widened_single(WasmS::Block(p1.0)),
                Err(_) => {},
            }
        },
        MirS::IfElse(tc, el) => match el {
            Some(ec) => {
                lemma_emit_seq_widens_comparisons(tc, mat);
                match emit_seq(tc, mat) {
                    Ok(p1) => {
                        lemma_emit_seq_widens_comparisons(ec, p1.1);
                        match emit_seq(ec, p1.1) {
                            Ok(p2) => {
                                let w = WasmS::IfElse(p1.0, p2.0);
                                let s = seq![WasmS::I32WrapI64, w];
                                assert(s[0] == WasmS::I32WrapI64);
                                assert(s[1] == w);
                                assert(s.last() == w);
                            },
                            Err(_) => {},
                        }
                    },
                    Err(_) => {},
                }
            },
            None => {},
        },
        MirS::Loop(_) => {},
        MirS::Drop => {},
    }
}

/// As `lemma_emit_op_widens_comparisons`, for a whole sequence.
pub proof fn lemma_emit_seq_widens_comparisons(s: Seq<MirS>, mat: MatTable)
    ensures
        emit_seq(s, mat) matches Ok(p) ==> cmp_widened_unit(p.0),
    decreases s,
{
    if s.len() == 0 {
    } else {
        lemma_emit_op_widens_comparisons(s.first(), mat);
        match emit_op(s.first(), mat) {
            Ok(p1) => {
                lemma_emit_seq_widens_comparisons(s.drop_first(), p1.1);
                match emit_seq(s.drop_first(), p1.1) {
                    Ok(p2) => lemma_cmp_widened_unit_concat(p1.0, p2.0),
                    Err(_) => {},
                }
            },
            Err(_) => {},
        }
    }
}

/// Whether the instruction references storage index `i`.
pub open spec fn index_used(w: WasmS, i: int) -> bool
    decreases w,
{
    match w {
        WasmS::LocalGet(j) => j == i,
        WasmS::LocalSet(j) => j == i,
        WasmS::LocalTee(j) => j == i,
        WasmS::Block(c) => seq_index_used(c, i),
        WasmS::IfElse(t, e) => seq_index_used(t, i) || seq_index_used(e, i),
        _ => false,
    }
}

/// Whether the sequence references storage index `i`, at any depth.
pub open spec fn seq_index_used(s: Seq<WasmS>, i: int) -> bool
    decreases s,
{
    s.len() > 0 && (index_used(s.first(), i) || seq_index_used(s.drop_first(), i))
}

/// Every storage index below `n` is referenced somewhere in the code.
pub open spec fn all_locals_used(code: Seq<WasmS>, n: int) -> bool {
    forall|i: int| 0 <= i < n ==> seq_index_used(code, i)
}

proof fn lemma_seq_index_used_concat(a: Seq<WasmS>, b: Seq<WasmS>, i: int)
    requires
        seq_index_used(a, i) || seq_index_used(b, i),
    ensures
        seq_index_used(a + b, i),
    decreases a,
{
    if a.len() == 0 {
        assert(a + b =~= b);
    } else {
        assert((a + b).first() == a.first());
        assert((a + b).drop_first() =~= a.drop_first() + b);
        if index_used(a.first(), i) {
        } else {
            lemma_seq_index_used_concat(a.drop_first(), b, i);
        }
    }
}

proof fn lemma_seq_index_used_singleton(w: WasmS, i: int)
    requires
        index_used(w, i),
    ensures
        seq_index_used(seq![w], i),
{
    assert(seq![w].first() == w);
}

/// Every slot the emission of one instruction materializes is referenced
/// in the machine code it produces.
pub proof fn lemma_emit_op_uses(m: MirS, mat: MatTable)
    ensures
        emit_op(m, mat) matches Ok(p) ==> forall|j: int|
            mat.len() <= j < p.1.len() ==> #[trigger] seq_index_used(p.0, j),
    decreases m,
{
    match m {
        MirS::LocalGet(k) => {
            if !mat.contains(k) {
                lemma_seq_index_used_singleton(WasmS::LocalGet(mat.len() as int), mat.len() as int);
            }
        },
        MirS::LocalSet(k) => {
            if !mat.contains(k) {
                lemma_seq_index_used_singleton(WasmS::LocalSet(mat.len() as int), mat.len() as int);
            }
        },
        MirS::LocalTee(k) => {
            if !mat.contains(k) {
                lemma_seq_index_used_singleton(WasmS::LocalTee(mat.len() as int), mat.len() as int);
            }
        },
        MirS::Block(ops) => {
            lemma_emit_seq_uses(ops, mat);
            match emit_seq(ops, mat) {
                Ok(p1) => {
                    assert forall|j: int| mat.len() <= j < p1.1.len() implies #[trigger]
                        seq_index_used(seq![WasmS::Block(p1.0)], j) by {
                        assert(seq_index_used(p1.0, j));
                        lemma_seq_index_used_singleton(WasmS::Block(p1.0), j);
                    }
                },
                Err(_) => {},
            }
        },
        MirS::IfElse(tc, el) => match el {
            Some(ec) => {
                lemma_emit_seq_uses(tc, mat);
                match emit_seq(tc, mat) {
                    Ok(p1) => {
                        lemma_emit_seq_uses(ec, p1.1);
                        lemma_emit_seq_mat_grows(tc, mat);
                        match emit_seq(ec, p1.1) {
                            Ok(p2) => {
                                let pair = seq![WasmS::I32WrapI64, WasmS::IfElse(p1.0, p2.0)];
                                assert forall|j: int| mat.len() <= j < p2.1.len() implies
                                    #[trigger] seq_index_used(pair, j) by {
                                    assert(pair.first() == WasmS::I32WrapI64);
                                    assert(pair.drop_first() =~= seq![WasmS::IfElse(p1.0, p2.0)]);
                                    if j < p1.1.len() {
                                        assert(seq_index_used(p1.0, j));
                                    } else {
                                        assert(seq_index_used(p2.0, j));
                                    }
                                    lemma_seq_index_used_singleton(WasmS::IfElse(p1.0, p2.0), j);
                                }
                            },
                            Err(_) => {},
                        }
                    },
                    Err(_) => {},
                }
            },
            None => {},
        },
        _ => {},
    }
}

/// As `lemma_emit_op_uses`, for a sequence: with an empty starting table,
/// every materialized slot's storage index is referenced in the code.
pub proof fn lemma_emit_seq_uses(s: Seq<MirS>, mat: MatTable)
    ensures
        emit_seq(s, mat) matches Ok(p) ==> forall|j: int|
            mat.len() <= j < p.1.len() ==> #[trigger] seq_index_used(p.0, j),
    decreases s,
{
    if s.len() > 0 {
        lemma_emit_op_uses(s.first(), mat);
        match emit_op(s.first(), mat) {
            Ok(p1) => {
                lemma_emit_seq_uses(s.drop_first(), p1.1);
                lemma_emit_op_mat_grows(s.first(), mat);
                match emit_seq(s.drop_first(), p1.1) {
                    Ok(p2) => {
                        lemma_emit_seq_mat_grows(s.drop_first(), p1.1);
                        assert forall|j: int| mat.len() <= j < p2.1.len() implies #[trigger]
                            seq_index_used(p1.0 + p2.0, j) by {
                            if j < p1.1.len() {
                                lemma_seq_index_used_concat(p1.0, p2.0, j);
                            } else {
                                lemma_seq_index_used_concat(p1.0, p2.0, j);
                            }
                        }
                    },
                    Err(_) => {},
                }
            },
            Err(_) => {},
        }
    }
}

/// Every instruction of a well-formed sequence is well formed.
pub proof fn lemma_wasm_seq_wf_index(s: Seq<WasmS>, n: int, i: int)
    requires
        wasm_seq_wf(s, n),
        0 <= i < s.len(),
    ensures
        wasm_wf(s[i], n),
    decreases i,
{
    if i > 0 {
        assert(s.drop_first()[i - 1] == s[i]);
        lemma_wasm_seq_wf_index(s.drop_first(), n, i - 1);
    }
}

pub proof fn lemma_emit_seq_wf(s: Seq<MirS>, mat: MatTable)
    ensures
        emit_seq(s, mat) matches Ok(p) ==> wasm_seq_wf(p.0, p.1.len() as int),
    decreases s,
{
    if s.len() > 0 {
        lemma_emit_op_wf(s.first(), mat);
        match emit_op(s.first(), mat) {
            Ok(p1) => {
                lemma_emit_seq_wf(s.drop_first(), p1.1);
                match emit_seq(s.drop_first(), p1.1) {
                    Ok(p2) => {
                        lemma_emit_seq_mat_grows(s.drop_first(), p1.1);
                        lemma_wasm_seq_wf_mono(p1.0, p1.1.len() as int, p2.1.len() as int);
                        lemma_wasm_seq_wf_concat(p1.0, p2.0, p2.1.len() as int);
                    },
                    Err(_) => {},
                }
            },
            Err(_) => {},
        }
    }
}

} // verus!
