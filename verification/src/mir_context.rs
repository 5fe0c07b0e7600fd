//! The emitter context: the walrus module builder, the open function
//! builder, and the lazy binding of logical slots to module storage.
//!
//! The structured-control code generation of `walrus` is driven here through
//! small trusted wrappers, one per builder operation; everything around them
//! — which instruction goes into which sequence, when a slot is bound to
//! storage, how nested scopes are opened and closed — is verified code over
//! the machine code that `emit` produced and specified exactly.
//!
//! The builder and the module are modeled by contents names (`builder_seqs`,
//! `builder_entry`, `module_locals`, `module_funcs`, `module_exports`,
//! `module_shape_i64`): bodiless spec functions of the outside values
//! themselves, which the wrappers' contracts advance. Over them, the
//! verified code proves that exactly the machine code of `emit` reaches the
//! open function body, and the serializer's result is named
//! (`module_bytes`), so the emission entry points can say what bytes they
//! return.
//!
//! The wrappers identify instruction sequences by the ids walrus hands out;
//! a wrapper that appends requires its sequence to be one of this builder's
//! (walrus ids are only meaningful for the arena that allocated them).

use vstd::prelude::*;
use crate::emit::EmitError;
use crate::emit::MatTable;
use crate::emit::WasmOp;
use crate::emit::emit_op;
use crate::emit::emit_ops;
use crate::emit::emit_program;
use crate::emit::emit_seq;
use crate::emit::lemma_emit_op_wf;
use crate::emit::lemma_wasm_seq_wf_index;
use crate::emit::lemma_wasms_view_index;
use crate::emit::lemma_wasms_view_len;
use crate::emit::materialize;
use crate::emit::wasm_seq_wf;
use crate::emit::wasms_view;
use crate::mir::Mir;
use crate::mir::mir_view;
use crate::mir::mirs_view;

verus! {

#[verifier::external_type_specification]
#[verifier::external_body]
pub struct ExModule(walrus::Module);

#[verifier::external_type_specification]
#[verifier::external_body]
pub struct ExFunctionBuilder(walrus::FunctionBuilder);

#[verifier::external_type_specification]
#[verifier::external_body]
pub struct ExLocal(walrus::ir::Local);

#[verifier::external_type_specification]
#[verifier::external_body]
pub struct ExInstrSeq(walrus::ir::InstrSeq);

#[verifier::external_type_specification]
#[verifier::external_body]
pub struct ExFunction(walrus::Function);

#[verifier::external_type_specification]
#[verifier::external_body]
pub struct ExInstr(walrus::ir::Instr);

#[verifier::external_type_specification]
#[verifier::external_body]
pub struct ExInstrLocId(walrus::ir::InstrLocId);

#[verifier::external_type_specification]
#[verifier::external_body]
#[verifier::reject_recursive_types(T)]
pub struct ExArenaId<T>(id_arena::Id<T>);

#[verifier::external_type_specification]
#[verifier::external_body]
pub struct ExAnyhowError(anyhow::Error);

/// One instruction as the builder's arena stores it: a nested body stands
/// as the id of its sequence, a local reference as its storage handle.
pub enum WFlat {
    Const(i64),
    Add,
    Sub,
    Mul,
    DivS,
    RemS,
    Eq,
    Ne,
    LtS,
    LeS,
    GtS,
    GeS,
    ExtendU,
    Wrap,
    LGet(walrus::LocalId),
    LSet(walrus::LocalId),
    LTee(walrus::LocalId),
    Blk(walrus::ir::InstrSeqId),
    If(walrus::ir::InstrSeqId, walrus::ir::InstrSeqId),
}

/// What the builder holds: the instructions of each of its instruction
/// sequences, in order (contents name on walrus::FunctionBuilder; the
/// wrappers below say how each call changes it).
pub uninterp spec fn builder_seqs(b: walrus::FunctionBuilder) -> Map<
    walrus::ir::InstrSeqId,
    Seq<WFlat>,
>;

/// The id of the builder's root (function body) sequence.
pub uninterp spec fn builder_entry(b: walrus::FunctionBuilder) -> walrus::ir::InstrSeqId;

/// The 64-bit locals allocated in the module, in allocation order
/// (contents name on walrus::Module).
pub uninterp spec fn module_locals(m: walrus::Module) -> Seq<walrus::LocalId>;

/// The module's local functions: for each, the argument list and the
/// builder it was sealed from (contents name on walrus::Module).
pub uninterp spec fn module_funcs(m: walrus::Module) -> Map<
    walrus::FunctionId,
    (Seq<walrus::LocalId>, walrus::FunctionBuilder),
>;

/// The module's exports: name to exported function (contents name on
/// walrus::Module).
pub uninterp spec fn module_exports(m: walrus::Module) -> Map<Seq<char>, walrus::FunctionId>;

/// The rest of the module is in the shape this pipeline leaves it: no
/// imports, tables, memories, globals, tags, data or element segments, no
/// start function, no custom sections, no names set, distinct export
/// names, the default configuration, and at most the deduplicated types
/// that building the zero-parameter one-64-bit-result function registers.
/// Established by a fresh module and preserved by every operation below
/// (adding an export preserves it only under a new name).
pub uninterp spec fn module_shape_i64(m: walrus::Module) -> bool;

/// The binary encoding of a module in that shape whose sole function — no
/// parameters, one 64-bit integer result, exported as "main" — has body
/// `body` over `nlocals` 64-bit locals, indexed in allocation order, each
/// referenced at least once (walrus emits used locals only, indexed in
/// allocation order, so such a module's bytes are a function of these
/// arguments alone).
pub uninterp spec fn module_bytes(body: Seq<crate::emit::WasmS>, nlocals: nat) -> Seq<u8>;

/// Whether the text renderer accepts these bytes as a well-formed module.
pub uninterp spec fn printable(bytes: Seq<u8>) -> bool;

/// One stored instruction denotes one machine instruction: nested bodies
/// are looked up in `m`, and every sequence id so referenced lies in `a` —
/// the confinement set that makes the denotation stable while untouched
/// sequences keep their contents.
pub open spec fn instr_denotes(
    m: Map<walrus::ir::InstrSeqId, Seq<WFlat>>,
    locals: Seq<walrus::LocalId>,
    f: WFlat,
    w: crate::emit::WasmS,
    a: Set<walrus::ir::InstrSeqId>,
) -> bool
    decreases w,
{
    match w {
        crate::emit::WasmS::I64Const(n) => f == WFlat::Const(n),
        crate::emit::WasmS::I64Add => f == WFlat::Add,
        crate::emit::WasmS::I64Sub => f == WFlat::Sub,
        crate::emit::WasmS::I64Mul => f == WFlat::Mul,
        crate::emit::WasmS::I64DivS => f == WFlat::DivS,
        crate::emit::WasmS::I64RemS => f == WFlat::RemS,
        crate::emit::WasmS::I64Eq => f == WFlat::Eq,
        crate::emit::WasmS::I64Ne => f == WFlat::Ne,
        crate::emit::WasmS::I64LtS => f == WFlat::LtS,
        crate::emit::WasmS::I64LeS => f == WFlat::LeS,
        crate::emit::WasmS::I64GtS => f == WFlat::GtS,
        crate::emit::WasmS::I64GeS => f == WFlat::GeS,
        crate::emit::WasmS::I64ExtendUI32 => f == WFlat::ExtendU,
        crate::emit::WasmS::I32WrapI64 => f == WFlat::Wrap,
        crate::emit::WasmS::LocalGet(i) => 0 <= i < locals.len() && f == WFlat::LGet(locals[i]),
        crate::emit::WasmS::LocalSet(i) => 0 <= i < locals.len() && f == WFlat::LSet(locals[i]),
        crate::emit::WasmS::LocalTee(i) => 0 <= i < locals.len() && f == WFlat::LTee(locals[i]),
        crate::emit::WasmS::Block(c) => f matches WFlat::Blk(cid) && a.contains(cid)
            && m.dom().contains(cid) && body_denotes(m, locals, m[cid], c, a),
        crate::emit::WasmS::IfElse(t, e) => f matches WFlat::If(tid, eid) && a.contains(tid)
            && a.contains(eid) && m.dom().contains(tid) && m.dom().contains(eid) && body_denotes(
            m,
            locals,
            m[tid],
            t,
            a,
        ) && body_denotes(m, locals, m[eid], e, a),
    }
}

/// A stored sequence denotes a machine code sequence, instruction for
/// instruction.
pub open spec fn body_denotes(
    m: Map<walrus::ir::InstrSeqId, Seq<WFlat>>,
    locals: Seq<walrus::LocalId>,
    flats: Seq<WFlat>,
    code: Seq<crate::emit::WasmS>,
    a: Set<walrus::ir::InstrSeqId>,
) -> bool
    decreases code,
{
    flats.len() == code.len() && (forall|i: int|
        0 <= i < code.len() ==> instr_denotes(m, locals, flats[i], #[trigger] code[i], a))
}

/// Denotation is stable under growing the map outside the confinement set,
/// extending the locals list, and growing the confinement set.
pub proof fn lemma_instr_denotes_mono(
    m: Map<walrus::ir::InstrSeqId, Seq<WFlat>>,
    m2: Map<walrus::ir::InstrSeqId, Seq<WFlat>>,
    locals: Seq<walrus::LocalId>,
    locals2: Seq<walrus::LocalId>,
    f: WFlat,
    w: crate::emit::WasmS,
    a: Set<walrus::ir::InstrSeqId>,
    a2: Set<walrus::ir::InstrSeqId>,
)
    requires
        forall|id: walrus::ir::InstrSeqId| #[trigger]
            a.contains(id) && m.dom().contains(id) ==> m2.dom().contains(id) && m2[id] == m[id],
        locals2.len() >= locals.len(),
        locals2.take(locals.len() as int) == locals,
        a.subset_of(a2),
        instr_denotes(m, locals, f, w, a),
    ensures
        instr_denotes(m2, locals2, f, w, a2),
    decreases w,
{
    match w {
        crate::emit::WasmS::LocalGet(i) => {
            assert(locals2[i] == locals2.take(locals.len() as int)[i]);
        },
        crate::emit::WasmS::LocalSet(i) => {
            assert(locals2[i] == locals2.take(locals.len() as int)[i]);
        },
        crate::emit::WasmS::LocalTee(i) => {
            assert(locals2[i] == locals2.take(locals.len() as int)[i]);
        },
        crate::emit::WasmS::Block(c) => {
            match f {
                WFlat::Blk(cid) => {
                    lemma_body_denotes_mono(m, m2, locals, locals2, m[cid], c, a, a2);
                },
                _ => {},
            }
        },
        crate::emit::WasmS::IfElse(t, e) => {
            match f {
                WFlat::If(tid, eid) => {
                    lemma_body_denotes_mono(m, m2, locals, locals2, m[tid], t, a, a2);
                    lemma_body_denotes_mono(m, m2, locals, locals2, m[eid], e, a, a2);
                },
                _ => {},
            }
        },
        _ => {},
    }
}

pub proof fn lemma_body_denotes_mono(
    m: Map<walrus::ir::InstrSeqId, Seq<WFlat>>,
    m2: Map<walrus::ir::InstrSeqId, Seq<WFlat>>,
    locals: Seq<walrus::LocalId>,
    locals2: Seq<walrus::LocalId>,
    flats: Seq<WFlat>,
    code: Seq<crate::emit::WasmS>,
    a: Set<walrus::ir::InstrSeqId>,
    a2: Set<walrus::ir::InstrSeqId>,
)
    requires
        forall|id: walrus::ir::InstrSeqId| #[trigger]
            a.contains(id) && m.dom().contains(id) ==> m2.dom().contains(id) && m2[id] == m[id],
        locals2.len() >= locals.len(),
        locals2.take(locals.len() as int) == locals,
        a.subset_of(a2),
        body_denotes(m, locals, flats, code, a),
    ensures
        body_denotes(m2, locals2, flats, code, a2),
    decreases code,
{
    assert forall|i: int| 0 <= i < code.len() implies instr_denotes(
        m2,
        locals2,
        flats[i],
        #[trigger] code[i],
        a2,
    ) by {
        lemma_instr_denotes_mono(m, m2, locals, locals2, flats[i], code[i], a, a2);
    }
}

/// Denotation of a concatenation, piece for piece.
pub proof fn lemma_body_denotes_concat(
    m: Map<walrus::ir::InstrSeqId, Seq<WFlat>>,
    locals: Seq<walrus::LocalId>,
    fl1: Seq<WFlat>,
    fl2: Seq<WFlat>,
    c1: Seq<crate::emit::WasmS>,
    c2: Seq<crate::emit::WasmS>,
    a: Set<walrus::ir::InstrSeqId>,
)
    requires
        body_denotes(m, locals, fl1, c1, a),
        body_denotes(m, locals, fl2, c2, a),
    ensures
        body_denotes(m, locals, fl1 + fl2, c1 + c2, a),
{
    assert forall|i: int| 0 <= i < c1.len() + c2.len() implies instr_denotes(
        m,
        locals,
        (fl1 + fl2)[i],
        #[trigger] (c1 + c2)[i],
        a,
    ) by {
        if i < c1.len() {
            assert((fl1 + fl2)[i] == fl1[i]);
            assert((c1 + c2)[i] == c1[i]);
        } else {
            assert((fl1 + fl2)[i] == fl2[i - c1.len()]);
            assert((c1 + c2)[i] == c2[i - c1.len()]);
        }
    }
}

/// The shape the pipeline leaves a module in just before serialization:
/// the pipeline's module shape, exactly one function `f` — no arguments,
/// sealed from a builder whose entry sequence denotes `body` over the
/// module's locals — exported under the entry-point name "main", and every
/// allocated local referenced by `body`.
pub open spec fn single_main_module(
    m: walrus::Module,
    f: walrus::FunctionId,
    body: Seq<crate::emit::WasmS>,
) -> bool {
    &&& module_shape_i64(m)
    &&& module_funcs(m).dom() == set![f]
    &&& module_funcs(m)[f].0 == Seq::<walrus::LocalId>::empty()
    &&& module_exports(m) == map!["main"@ => f]
    &&& ({
        let b = module_funcs(m)[f].1;
        let e = builder_entry(b);
        let sq = builder_seqs(b);
        sq.dom().contains(e) && body_denotes(sq, module_locals(m), sq[e], body, sq.dom().remove(e))
    })
    &&& crate::emit::all_locals_used(body, module_locals(m).len() as int)
}

/// Relies on walrus::Module::default: a fresh module with no locals,
/// functions, exports, or any other content.
#[verifier::external_body]
fn module_default() -> (r: walrus::Module)
    ensures
        module_locals(r) == Seq::<walrus::LocalId>::empty(),
        module_funcs(r) == (Map::<walrus::FunctionId, (Seq<walrus::LocalId>, walrus::FunctionBuilder)>::empty()),
        module_exports(r) == (Map::<Seq<char>, walrus::FunctionId>::empty()),
        module_shape_i64(r),
{
    walrus::Module::default()
}

/// Relies on walrus::ModuleLocals::add: allocates one fresh 64-bit integer
/// local in the module and returns its handle; nothing else changes.
#[verifier::external_body]
fn locals_add_i64(m: &mut walrus::Module) -> (r: walrus::LocalId)
    ensures
        module_locals(*final(m)) == module_locals(*old(m)).push(r),
        module_funcs(*final(m)) == module_funcs(*old(m)),
        module_exports(*final(m)) == module_exports(*old(m)),
        module_shape_i64(*old(m)) ==> module_shape_i64(*final(m)),
{
    m.locals.add(walrus::ValType::I64)
}

/// Relies on walrus::FunctionBuilder::new: a builder for a function with no
/// parameters and one 64-bit integer result, holding one empty sequence —
/// its entry. Only the module's (deduplicated) types change.
#[verifier::external_body]
fn builder_new_i64(m: &mut walrus::Module) -> (r: walrus::FunctionBuilder)
    ensures
        builder_seqs(r) == (Map::<walrus::ir::InstrSeqId, Seq<WFlat>>::empty().insert(
            builder_entry(r),
            Seq::empty(),
        )),
        module_locals(*final(m)) == module_locals(*old(m)),
        module_funcs(*final(m)) == module_funcs(*old(m)),
        module_exports(*final(m)) == module_exports(*old(m)),
        module_shape_i64(*old(m)) ==> module_shape_i64(*final(m)),
{
    walrus::FunctionBuilder::new(&mut m.types, &[], &[walrus::ValType::I64])
}

/// Relies on walrus::FunctionBuilder::func_body_id: the id of the builder's
/// root instruction sequence.
#[verifier::external_body]
fn body_seq_id(b: &walrus::FunctionBuilder) -> (r: walrus::ir::InstrSeqId)
    ensures
        r == builder_entry(*b),
{
    b.func_body_id()
}

/// Relies on walrus::FunctionBuilder::dangling_instr_seq: a fresh, empty
/// instruction sequence declared to leave one 64-bit integer, not yet hung
/// into any parent; the arena never hands out an id twice.
#[verifier::external_body]
fn dangling_seq_i64(b: &mut walrus::FunctionBuilder) -> (r: walrus::ir::InstrSeqId)
    ensures
        !builder_seqs(*old(b)).dom().contains(r),
        builder_seqs(*final(b)) == builder_seqs(*old(b)).insert(r, Seq::empty()),
        builder_entry(*final(b)) == builder_entry(*old(b)),
{
    b.dangling_instr_seq(walrus::ValType::I64).id()
}

/// Relies on walrus's InstrSeqBuilder::i64_const: appends `i64.const v` to
/// sequence `seq` of this builder.
#[verifier::external_body]
fn seq_i64_const(b: &mut walrus::FunctionBuilder, seq: walrus::ir::InstrSeqId, v: i64)
    requires
        builder_seqs(*old(b)).dom().contains(seq),
    ensures
        builder_seqs(*final(b)) == builder_seqs(*old(b)).insert(
            seq,
            builder_seqs(*old(b))[seq].push(WFlat::Const(v)),
        ),
        builder_entry(*final(b)) == builder_entry(*old(b)),
{
    b.instr_seq(seq).i64_const(v);
}

/// Relies on walrus's InstrSeqBuilder::binop: appends `i64.add`.
#[verifier::external_body]
fn seq_i64_add(b: &mut walrus::FunctionBuilder, seq: walrus::ir::InstrSeqId)
    requires
        builder_seqs(*old(b)).dom().contains(seq),
    ensures
        builder_seqs(*final(b)) == builder_seqs(*old(b)).insert(
            seq,
            builder_seqs(*old(b))[seq].push(WFlat::Add),
        ),
        builder_entry(*final(b)) == builder_entry(*old(b)),
{
    b.instr_seq(seq).binop(walrus::ir::BinaryOp::I64Add);
}

/// Relies on walrus's InstrSeqBuilder::binop: appends `i64.sub`.
#[verifier::external_body]
fn seq_i64_sub(b: &mut walrus::FunctionBuilder, seq: walrus::ir::InstrSeqId)
    requires
        builder_seqs(*old(b)).dom().contains(seq),
    ensures
        builder_seqs(*final(b)) == builder_seqs(*old(b)).insert(
            seq,
            builder_seqs(*old(b))[seq].push(WFlat::Sub),
        ),
        builder_entry(*final(b)) == builder_entry(*old(b)),
{
    b.instr_seq(seq).binop(walrus::ir::BinaryOp::I64Sub);
}

/// Relies on walrus's InstrSeqBuilder::binop: appends `i64.mul`.
#[verifier::external_body]
fn seq_i64_mul(b: &mut walrus::FunctionBuilder, seq: walrus::ir::InstrSeqId)
    requires
        builder_seqs(*old(b)).dom().contains(seq),
    ensures
        builder_seqs(*final(b)) == builder_seqs(*old(b)).insert(
            seq,
            builder_seqs(*old(b))[seq].push(WFlat::Mul),
        ),
        builder_entry(*final(b)) == builder_entry(*old(b)),
{
    b.instr_seq(seq).binop(walrus::ir::BinaryOp::I64Mul);
}

/// Relies on walrus's InstrSeqBuilder::binop: appends `i64.div_s`.
#[verifier::external_body]
fn seq_i64_div_s(b: &mut walrus::FunctionBuilder, seq: walrus::ir::InstrSeqId)
    requires
        builder_seqs(*old(b)).dom().contains(seq),
    ensures
        builder_seqs(*final(b)) == builder_seqs(*old(b)).insert(
            seq,
            builder_seqs(*old(b))[seq].push(WFlat::DivS),
        ),
        builder_entry(*final(b)) == builder_entry(*old(b)),
{
    b.instr_seq(seq).binop(walrus::ir::BinaryOp::I64DivS);
}

/// Relies on walrus's InstrSeqBuilder::binop: appends `i64.rem_s`.
#[verifier::external_body]
fn seq_i64_rem_s(b: &mut walrus::FunctionBuilder, seq: walrus::ir::InstrSeqId)
    requires
        builder_seqs(*old(b)).dom().contains(seq),
    ensures
        builder_seqs(*final(b)) == builder_seqs(*old(b)).insert(
            seq,
            builder_seqs(*old(b))[seq].push(WFlat::RemS),
        ),
        builder_entry(*final(b)) == builder_entry(*old(b)),
{
    b.instr_seq(seq).binop(walrus::ir::BinaryOp::I64RemS);
}

/// Relies on walrus's InstrSeqBuilder::binop: appends `i64.eq`.
#[verifier::external_body]
fn seq_i64_eq(b: &mut walrus::FunctionBuilder, seq: walrus::ir::InstrSeqId)
    requires
        builder_seqs(*old(b)).dom().contains(seq),
    ensures
        builder_seqs(*final(b)) == builder_seqs(*old(b)).insert(
            seq,
            builder_seqs(*old(b))[seq].push(WFlat::Eq),
        ),
        builder_entry(*final(b)) == builder_entry(*old(b)),
{
    b.instr_seq(seq).binop(walrus::ir::BinaryOp::I64Eq);
}

/// Relies on walrus's InstrSeqBuilder::binop: appends `i64.ne`.
#[verifier::external_body]
fn seq_i64_ne(b: &mut walrus::FunctionBuilder, seq: walrus::ir::InstrSeqId)
    requires
        builder_seqs(*old(b)).dom().contains(seq),
    ensures
        builder_seqs(*final(b)) == builder_seqs(*old(b)).insert(
            seq,
            builder_seqs(*old(b))[seq].push(WFlat::Ne),
        ),
        builder_entry(*final(b)) == builder_entry(*old(b)),
{
    b.instr_seq(seq).binop(walrus::ir::BinaryOp::I64Ne);
}

/// Relies on walrus's InstrSeqBuilder::binop: appends `i64.lt_s`.
#[verifier::external_body]
fn seq_i64_lt_s(b: &mut walrus::FunctionBuilder, seq: walrus::ir::InstrSeqId)
    requires
        builder_seqs(*old(b)).dom().contains(seq),
    ensures
        builder_seqs(*final(b)) == builder_seqs(*old(b)).insert(
            seq,
            builder_seqs(*old(b))[seq].push(WFlat::LtS),
        ),
        builder_entry(*final(b)) == builder_entry(*old(b)),
{
    b.instr_seq(seq).binop(walrus::ir::BinaryOp::I64LtS);
}

/// Relies on walrus's InstrSeqBuilder::binop: appends `i64.le_s`.
#[verifier::external_body]
fn seq_i64_le_s(b: &mut walrus::FunctionBuilder, seq: walrus::ir::InstrSeqId)
    requires
        builder_seqs(*old(b)).dom().contains(seq),
    ensures
        builder_seqs(*final(b)) == builder_seqs(*old(b)).insert(
            seq,
            builder_seqs(*old(b))[seq].push(WFlat::LeS),
        ),
        builder_entry(*final(b)) == builder_entry(*old(b)),
{
    b.instr_seq(seq).binop(walrus::ir::BinaryOp::I64LeS);
}

/// Relies on walrus's InstrSeqBuilder::binop: appends `i64.gt_s`.
#[verifier::external_body]
fn seq_i64_gt_s(b: &mut walrus::FunctionBuilder, seq: walrus::ir::InstrSeqId)
    requires
        builder_seqs(*old(b)).dom().contains(seq),
    ensures
        builder_seqs(*final(b)) == builder_seqs(*old(b)).insert(
            seq,
            builder_seqs(*old(b))[seq].push(WFlat::GtS),
        ),
        builder_entry(*final(b)) == builder_entry(*old(b)),
{
    b.instr_seq(seq).binop(walrus::ir::BinaryOp::I64GtS);
}

/// Relies on walrus's InstrSeqBuilder::binop: appends `i64.ge_s`.
#[verifier::external_body]
fn seq_i64_ge_s(b: &mut walrus::FunctionBuilder, seq: walrus::ir::InstrSeqId)
    requires
        builder_seqs(*old(b)).dom().contains(seq),
    ensures
        builder_seqs(*final(b)) == builder_seqs(*old(b)).insert(
            seq,
            builder_seqs(*old(b))[seq].push(WFlat::GeS),
        ),
        builder_entry(*final(b)) == builder_entry(*old(b)),
{
    b.instr_seq(seq).binop(walrus::ir::BinaryOp::I64GeS);
}

/// Relies on walrus's InstrSeqBuilder::unop: appends `i64.extend_i32_u`,
/// the widening conversion after a comparison.
#[verifier::external_body]
fn seq_i64_extend_u_i32(b: &mut walrus::FunctionBuilder, seq: walrus::ir::InstrSeqId)
    requires
        builder_seqs(*old(b)).dom().contains(seq),
    ensures
        builder_seqs(*final(b)) == builder_seqs(*old(b)).insert(
            seq,
            builder_seqs(*old(b))[seq].push(WFlat::ExtendU),
        ),
        builder_entry(*final(b)) == builder_entry(*old(b)),
{
    b.instr_seq(seq).unop(walrus::ir::UnaryOp::I64ExtendUI32);
}

/// Relies on walrus's InstrSeqBuilder::unop: appends `i32.wrap_i64`, the
/// narrowing conversion before a conditional's test.
#[verifier::external_body]
fn seq_i32_wrap_i64(b: &mut walrus::FunctionBuilder, seq: walrus::ir::InstrSeqId)
    requires
        builder_seqs(*old(b)).dom().contains(seq),
    ensures
        builder_seqs(*final(b)) == builder_seqs(*old(b)).insert(
            seq,
            builder_seqs(*old(b))[seq].push(WFlat::Wrap),
        ),
        builder_entry(*final(b)) == builder_entry(*old(b)),
{
    b.instr_seq(seq).unop(walrus::ir::UnaryOp::I32WrapI64);
}

/// Relies on walrus's InstrSeqBuilder::local_get: appends `local.get l`.
#[verifier::external_body]
fn seq_local_get(b: &mut walrus::FunctionBuilder, seq: walrus::ir::InstrSeqId, l: walrus::LocalId)
    requires
        builder_seqs(*old(b)).dom().contains(seq),
    ensures
        builder_seqs(*final(b)) == builder_seqs(*old(b)).insert(
            seq,
            builder_seqs(*old(b))[seq].push(WFlat::LGet(l)),
        ),
        builder_entry(*final(b)) == builder_entry(*old(b)),
{
    b.instr_seq(seq).local_get(l);
}

/// Relies on walrus's InstrSeqBuilder::local_set: appends `local.set l`.
#[verifier::external_body]
fn seq_local_set(b: &mut walrus::FunctionBuilder, seq: walrus::ir::InstrSeqId, l: walrus::LocalId)
    requires
        builder_seqs(*old(b)).dom().contains(seq),
    ensures
        builder_seqs(*final(b)) == builder_seqs(*old(b)).insert(
            seq,
            builder_seqs(*old(b))[seq].push(WFlat::LSet(l)),
        ),
        builder_entry(*final(b)) == builder_entry(*old(b)),
{
    b.instr_seq(seq).local_set(l);
}

/// Relies on walrus's InstrSeqBuilder::local_tee: appends `local.tee l`.
#[verifier::external_body]
fn seq_local_tee(b: &mut walrus::FunctionBuilder, seq: walrus::ir::InstrSeqId, l: walrus::LocalId)
    requires
        builder_seqs(*old(b)).dom().contains(seq),
    ensures
        builder_seqs(*final(b)) == builder_seqs(*old(b)).insert(
            seq,
            builder_seqs(*old(b))[seq].push(WFlat::LTee(l)),
        ),
        builder_entry(*final(b)) == builder_entry(*old(b)),
{
    b.instr_seq(seq).local_tee(l);
}

/// Relies on walrus's InstrSeqBuilder::instr with ir::Block: appends a
/// `block ... end` whose body is the sequence `child`.
#[verifier::external_body]
fn seq_block_instr(
    b: &mut walrus::FunctionBuilder,
    seq: walrus::ir::InstrSeqId,
    child: walrus::ir::InstrSeqId,
)
    requires
        builder_seqs(*old(b)).dom().contains(seq),
    ensures
        builder_seqs(*final(b)) == builder_seqs(*old(b)).insert(
            seq,
            builder_seqs(*old(b))[seq].push(WFlat::Blk(child)),
        ),
        builder_entry(*final(b)) == builder_entry(*old(b)),
{
    b.instr_seq(seq).instr(walrus::ir::Block { seq: child });
}

/// Relies on walrus's InstrSeqBuilder::instr with ir::IfElse: appends an
/// `if ... else ... end` over the two sequences.
#[verifier::external_body]
fn seq_if_else_instr(
    b: &mut walrus::FunctionBuilder,
    seq: walrus::ir::InstrSeqId,
    cons: walrus::ir::InstrSeqId,
    alt: walrus::ir::InstrSeqId,
)
    requires
        builder_seqs(*old(b)).dom().contains(seq),
    ensures
        builder_seqs(*final(b)) == builder_seqs(*old(b)).insert(
            seq,
            builder_seqs(*old(b))[seq].push(WFlat::If(cons, alt)),
        ),
        builder_entry(*final(b)) == builder_entry(*old(b)),
{
    b.instr_seq(seq).instr(walrus::ir::IfElse { consequent: cons, alternative: alt });
}

/// Relies on walrus::FunctionBuilder::finish: seals the function with the
/// given argument list, registers it in the module under a fresh id, and
/// changes nothing else.
#[verifier::external_body]
fn builder_finish(
    b: walrus::FunctionBuilder,
    args: Vec<walrus::LocalId>,
    m: &mut walrus::Module,
) -> (r: walrus::FunctionId)
    ensures
        !module_funcs(*old(m)).dom().contains(r),
        module_funcs(*final(m)) == module_funcs(*old(m)).insert(r, (args@, b)),
        module_locals(*final(m)) == module_locals(*old(m)),
        module_exports(*final(m)) == module_exports(*old(m)),
        module_shape_i64(*old(m)) ==> module_shape_i64(*final(m)),
{
    b.finish(args, &mut m.funcs)
}

/// Relies on walrus::ModuleExports::add: exports the function under `name`
/// and changes nothing else. walrus appends blindly, so only an export
/// under a new name keeps the module's shape (distinct export names).
#[verifier::external_body]
fn exports_add(m: &mut walrus::Module, name: &str, f: walrus::FunctionId)
    ensures
        module_exports(*final(m)) == module_exports(*old(m)).insert(name@, f),
        module_locals(*final(m)) == module_locals(*old(m)),
        module_funcs(*final(m)) == module_funcs(*old(m)),
        module_shape_i64(*old(m)) && !module_exports(*old(m)).dom().contains(name@)
            ==> module_shape_i64(*final(m)),
{
    m.exports.add(name, f);
}

/// Relies on walrus::Module::emit_wasm: serializes the module to its binary
/// encoding. On a module of the pipeline's shape — sole function with no
/// arguments whose entry denotes `body`, exported as "main", every
/// allocated local referenced — the bytes are the named serialization of
/// `body` over those locals. The shape is also required: on a module whose
/// exports or function bodies name ids the module does not hold, walrus's
/// serializer panics, so such modules are left out.
#[verifier::external_body]
fn module_emit(m: &mut walrus::Module) -> (r: Vec<u8>)
    requires
        exists|f: walrus::FunctionId, body: Seq<crate::emit::WasmS>|
            single_main_module(*old(m), f, body),
    ensures
        (forall|f: walrus::FunctionId, body: Seq<crate::emit::WasmS>| #[trigger]
            single_main_module(*old(m), f, body) ==> r@ == module_bytes(
                body,
                module_locals(*old(m)).len(),
            )),
{
    m.emit_wasm()
}

/// Relies on wasmprinter::print_bytes: renders a binary module as its text
/// format, failing exactly on bytes it does not accept as a well-formed
/// module (rendering is a function of the bytes alone).
#[verifier::external_body]
fn print_wasm(bytes: &Vec<u8>) -> (r: Result<String, anyhow::Error>)
    ensures
        r is Ok <==> printable(bytes@),
{
    wasmprinter::print_bytes(bytes.as_slice())
}

/// Module-level state of one compilation: the module being built, the open
/// function builder, and the materialization of logical slots — `mat[i]` is
/// the logical slot bound to storage index `i`, and `locals[i]` is that
/// storage's handle.
pub struct MirContext {
    pub module: walrus::Module,
    pub builder: Option<walrus::FunctionBuilder>,
    pub mat: Vec<u32>,
    pub locals: Vec<walrus::LocalId>,
}

impl MirContext {
    /// One storage handle per materialized slot.
    pub open spec fn wf(&self) -> bool {
        self.locals@.len() == self.mat@.len()
    }

    /// If a builder is open, its entry sequence exists in its arena (true
    /// of every builder this module opens).
    pub open spec fn builder_ok(&self) -> bool {
        self.builder is Some ==> builder_seqs(self.builder->0).dom().contains(
            builder_entry(self.builder->0),
        )
    }

    /// The open function's body holds exactly the machine code `code`:
    /// the builder's entry sequence denotes it over this context's storage
    /// handles.
    pub open spec fn body_is(&self, code: Seq<crate::emit::WasmS>) -> bool {
        &&& self.builder is Some
        &&& ({
            let bb = self.builder->0;
            let sq = builder_seqs(bb);
            let e = builder_entry(bb);
            sq.dom().contains(e) && body_denotes(sq, self.locals@, sq[e], code, sq.dom().remove(e))
        })
    }

    /// A fresh context around a module: no builder yet, nothing
    /// materialized.
    pub fn new(module: walrus::Module) -> (r: MirContext)
        ensures
            r.wf(),
            r.mat@ == Seq::<u32>::empty(),
            r.locals@ == Seq::<walrus::LocalId>::empty(),
            r.builder is None,
            r.module == module,
    {
        MirContext { module, builder: None, mat: Vec::new(), locals: Vec::new() }
    }

    /// Bind logical slot `index` — not yet materialized: each slot is
    /// bound at most once — to fresh 64-bit storage now.
    pub fn add_local(&mut self, index: u32) -> (r: walrus::LocalId)
        requires
            old(self).wf(),
            !old(self).mat@.contains(index),
        ensures
            final(self).wf(),
            final(self).mat@ == old(self).mat@.push(index),
            final(self).locals@ == old(self).locals@.push(r),
            final(self).builder == old(self).builder,
            module_locals(final(self).module) == module_locals(old(self).module).push(r),
            module_funcs(final(self).module) == module_funcs(old(self).module),
            module_exports(final(self).module) == module_exports(old(self).module),
            module_shape_i64(old(self).module) ==> module_shape_i64(final(self).module),
    {
        let id = locals_add_i64(&mut self.module);
        self.mat.push(index);
        self.locals.push(id);
        id
    }

    /// The storage handle of logical slot `index`, if it is materialized.
    pub fn get_local(&mut self, index: u32) -> (r: Option<walrus::LocalId>)
        requires
            old(self).wf(),
        ensures
            *final(self) == *old(self),
            match r {
                Some(id) => old(self).mat@.contains(index) && id == old(
                    self,
                ).locals@[crate::emit::mat_index(old(self).mat@, index)],
                None => !old(self).mat@.contains(index),
            },
    {
        let n = self.mat.len();
        let mut i: usize = 0;
        while i < n
            invariant
                i <= n == self.mat@.len(),
                self == old(self),
                self.locals@.len() == self.mat@.len(),
                forall|j: int| 0 <= j < i ==> self.mat@[j] != index,
            decreases n - i,
        {
            if self.mat[i] == index {
                proof {
                    crate::emit::lemma_mat_index_found(self.mat@, index, i as int);
                }
                return Some(self.locals[i]);
            }
            i = i + 1;
        }
        proof {
            assert(!self.mat@.contains(index));
        }
        None
    }

    /// The storage handle of logical slot `index`, binding it lazily on
    /// first use, as `materialize` says: an already-bound slot keeps its
    /// handle and the table untouched, so the lookup memoizes — two calls
    /// with the same index return the identical handle.
    pub fn get_or_add_local(&mut self, index: u32) -> (r: walrus::LocalId)
        requires
            old(self).wf(),
        ensures
            final(self).wf(),
            final(self).mat@ == materialize(old(self).mat@, index).0,
            final(self).locals@ == (if old(self).mat@.contains(index) {
                old(self).locals@
            } else {
                old(self).locals@.push(r)
            }),
            r == final(self).locals@[materialize(old(self).mat@, index).1],
            final(self).builder == old(self).builder,
            module_funcs(final(self).module) == module_funcs(old(self).module),
            module_exports(final(self).module) == module_exports(old(self).module),
            module_locals(final(self).module) == (if old(self).mat@.contains(index) {
                module_locals(old(self).module)
            } else {
                module_locals(old(self).module).push(r)
            }),
            module_shape_i64(old(self).module) ==> module_shape_i64(final(self).module),
    {
        match self.get_local(index) {
            Some(id) => {
                proof {
                    crate::emit::lemma_mat_index_bound(self.mat@, index);
                }
                id
            },
            None => self.add_local(index),
        }
    }

    /// A builder for the module's one function: no parameters, one 64-bit
    /// integer result, its entry sequence empty.
    pub fn new_builder(&mut self) -> (r: walrus::FunctionBuilder)
        ensures
            final(self).mat@ == old(self).mat@,
            final(self).locals@ == old(self).locals@,
            final(self).builder == old(self).builder,
            builder_seqs(r) == (Map::<walrus::ir::InstrSeqId, Seq<WFlat>>::empty().insert(
                builder_entry(r),
                Seq::empty(),
            )),
            module_locals(final(self).module) == module_locals(old(self).module),
            module_funcs(final(self).module) == module_funcs(old(self).module),
            module_exports(final(self).module) == module_exports(old(self).module),
            module_shape_i64(old(self).module) ==> module_shape_i64(final(self).module),
    {
        builder_new_i64(&mut self.module)
    }

    /// Keep `builder` as the open function builder.
    pub fn set_builder(&mut self, builder: walrus::FunctionBuilder)
        ensures
            final(self).builder == Some(builder),
            final(self).mat@ == old(self).mat@,
            final(self).locals@ == old(self).locals@,
            final(self).module == old(self).module,
    {
        self.builder = Some(builder);
    }

    /// Open a fresh builder for the module's one function: no parameters,
    /// one 64-bit integer result, its body still empty.
    pub fn set_new_builder(&mut self)
        ensures
            final(self).builder is Some,
            final(self).mat@ == old(self).mat@,
            final(self).locals@ == old(self).locals@,
            final(self).builder_ok(),
            final(self).body_is(Seq::<crate::emit::WasmS>::empty()),
            module_locals(final(self).module) == module_locals(old(self).module),
            module_funcs(final(self).module) == module_funcs(old(self).module),
            module_exports(final(self).module) == module_exports(old(self).module),
            module_shape_i64(old(self).module) ==> module_shape_i64(final(self).module),
    {
        let b = self.new_builder();
        let ghost bs = b;
        self.set_builder(b);
        proof {
            let sq = builder_seqs(bs);
            let e = builder_entry(bs);
            assert(sq.dom().contains(e));
            assert(sq[e] =~= Seq::<WFlat>::empty());
            assert(body_denotes(
                sq,
                self.locals@,
                sq[e],
                Seq::<crate::emit::WasmS>::empty(),
                sq.dom().remove(e),
            ));
        }
    }

    /// Seal the open function with the given argument list and register it
    /// in the module under a fresh id; an error if no builder is open. The
    /// builder is consumed either way it was present.
    pub fn finish_builder(&mut self, arguments: Vec<walrus::LocalId>) -> (r: Result<
        walrus::FunctionId,
        EmitError,
    >)
        ensures
            r is Ok <==> old(self).builder is Some,
            r is Err ==> r == Err::<walrus::FunctionId, EmitError>(EmitError::BuilderNotSet),
            final(self).builder is None,
            final(self).mat@ == old(self).mat@,
            final(self).locals@ == old(self).locals@,
            r matches Ok(f) ==> !module_funcs(old(self).module).dom().contains(f)
                && module_funcs(final(self).module) == module_funcs(old(self).module).insert(
                f,
                (arguments@, old(self).builder->0),
            ),
            r is Err ==> final(self).module == old(self).module,
            module_locals(final(self).module) == module_locals(old(self).module),
            module_exports(final(self).module) == module_exports(old(self).module),
            module_shape_i64(old(self).module) ==> module_shape_i64(final(self).module),
    {
        match self.builder.take() {
            None => Err(EmitError::BuilderNotSet),
            Some(b) => Ok(builder_finish(b, arguments, &mut self.module)),
        }
    }

    /// Export `function` from the module under `name`.
    pub fn export_function(&mut self, name: &str, function: walrus::FunctionId)
        ensures
            final(self).mat@ == old(self).mat@,
            final(self).locals@ == old(self).locals@,
            final(self).builder == old(self).builder,
            module_exports(final(self).module) == module_exports(old(self).module).insert(
                name@,
                function,
            ),
            module_locals(final(self).module) == module_locals(old(self).module),
            module_funcs(final(self).module) == module_funcs(old(self).module),
            module_shape_i64(old(self).module) && !module_exports(
                old(self).module,
            ).dom().contains(name@) ==> module_shape_i64(final(self).module),
    {
        exports_add(&mut self.module, name, function);
    }

    /// Serialize the module to its binary encoding: on a module of the
    /// pipeline's final shape — which the serializer demands, since walrus
    /// panics on modules naming ids they do not hold — the named
    /// serialization of its sole function's body.
    pub fn emit_wasm(&mut self) -> (r: Vec<u8>)
        requires
            exists|f: walrus::FunctionId, body: Seq<crate::emit::WasmS>|
                single_main_module(old(self).module, f, body),
        ensures
            final(self).mat@ == old(self).mat@,
            final(self).locals@ == old(self).locals@,
            (forall|f: walrus::FunctionId, body: Seq<crate::emit::WasmS>| #[trigger]
                single_main_module(old(self).module, f, body) ==> r@ == module_bytes(
                    body,
                    module_locals(old(self).module).len(),
                )),
    {
        module_emit(&mut self.module)
    }
}

/// Feed machine instructions into the sequence `seq` of the builder,
/// reading storage handles from `locals`: exactly the given machine code
/// is appended to `seq` — nested bodies each get a fresh sequence of their
/// own, filled before being hung into their parent — and no sequence that
/// existed before is touched, other than `seq` itself.
fn pour_ops(
    ops: &Vec<WasmOp>,
    b: &mut walrus::FunctionBuilder,
    seq: walrus::ir::InstrSeqId,
    locals: &Vec<walrus::LocalId>,
)
    requires
        wasm_seq_wf(wasms_view(ops@), locals@.len() as int),
        builder_seqs(*old(b)).dom().contains(seq),
    ensures
        builder_entry(*final(b)) == builder_entry(*old(b)),
        builder_seqs(*old(b)).dom().subset_of(builder_seqs(*final(b)).dom()),
        (forall|id: walrus::ir::InstrSeqId|
            #![trigger builder_seqs(*final(b))[id]]
            builder_seqs(*old(b)).dom().contains(id) && id != seq ==> builder_seqs(
                *final(b),
            ).dom().contains(id) && builder_seqs(*final(b))[id] == builder_seqs(*old(b))[id]),
        builder_seqs(*final(b)).dom().contains(seq),
        builder_seqs(*final(b))[seq].len() == builder_seqs(*old(b))[seq].len() + ops@.len(),
        builder_seqs(*final(b))[seq].take(builder_seqs(*old(b))[seq].len() as int) == builder_seqs(
            *old(b),
        )[seq],
        body_denotes(
            builder_seqs(*final(b)),
            locals@,
            builder_seqs(*final(b))[seq].skip(builder_seqs(*old(b))[seq].len() as int),
            wasms_view(ops@),
            builder_seqs(*final(b)).dom().difference(builder_seqs(*old(b)).dom()),
        ),
    decreases ops@,
{
    let ghost s = wasms_view(ops@);
    let ghost m0 = builder_seqs(*b);
    let ghost len0 = m0[seq].len() as int;
    proof {
        lemma_wasms_view_len(ops@);
        assert(m0[seq].take(len0) =~= m0[seq]);
        assert(m0[seq].skip(len0) =~= Seq::<WFlat>::empty());
        assert(s.take(0) =~= Seq::<crate::emit::WasmS>::empty());
    }
    let mut k: usize = 0;
    while k < ops.len()
        invariant
            k <= ops@.len(),
            s == wasms_view(ops@),
            s.len() == ops@.len(),
            wasm_seq_wf(s, locals@.len() as int),
            m0 == builder_seqs(*old(b)),
            m0.dom().contains(seq),
            len0 == m0[seq].len(),
            builder_entry(*b) == builder_entry(*old(b)),
            m0.dom().subset_of(builder_seqs(*b).dom()),
            (forall|id: walrus::ir::InstrSeqId|
                #![trigger builder_seqs(*b)[id]]
                m0.dom().contains(id) && id != seq ==> builder_seqs(*b).dom().contains(id)
                    && builder_seqs(*b)[id] == m0[id]),
            builder_seqs(*b).dom().contains(seq),
            builder_seqs(*b)[seq].len() == len0 + k,
            builder_seqs(*b)[seq].take(len0) == m0[seq],
            body_denotes(
                builder_seqs(*b),
                locals@,
                builder_seqs(*b)[seq].skip(len0),
                s.take(k as int),
                builder_seqs(*b).dom().difference(m0.dom()),
            ),
        decreases ops@.len() - k,
    {
        proof {
            lemma_wasms_view_index(ops@, k as int);
            lemma_wasm_seq_wf_index(s, locals@.len() as int, k as int);
            assert(locals@.take(locals@.len() as int) =~= locals@);
        }
        let ghost m_before = builder_seqs(*b);
        let ghost mut fl: WFlat = WFlat::Wrap;
        match &ops[k] {
            WasmOp::I64Const(n) => {
                seq_i64_const(b, seq, *n);
                proof {
                    fl = WFlat::Const(*n);
                }
            },
            WasmOp::I64Add => {
                seq_i64_add(b, seq);
                proof {
                    fl = WFlat::Add;
                }
            },
            WasmOp::I64Sub => {
                seq_i64_sub(b, seq);
                proof {
                    fl = WFlat::Sub;
                }
            },
            WasmOp::I64Mul => {
                seq_i64_mul(b, seq);
                proof {
                    fl = WFlat::Mul;
                }
            },
            WasmOp::I64DivS => {
                seq_i64_div_s(b, seq);
                proof {
                    fl = WFlat::DivS;
                }
            },
            WasmOp::I64RemS => {
                seq_i64_rem_s(b, seq);
                proof {
                    fl = WFlat::RemS;
                }
            },
            WasmOp::I64Eq => {
                seq_i64_eq(b, seq);
                proof {
                    fl = WFlat::Eq;
                }
            },
            WasmOp::I64Ne => {
                seq_i64_ne(b, seq);
                proof {
                    fl = WFlat::Ne;
                }
            },
            WasmOp::I64LtS => {
                seq_i64_lt_s(b, seq);
                proof {
                    fl = WFlat::LtS;
                }
            },
            WasmOp::I64LeS => {
                seq_i64_le_s(b, seq);
                proof {
                    fl = WFlat::LeS;
                }
            },
            WasmOp::I64GtS => {
                seq_i64_gt_s(b, seq);
                proof {
                    fl = WFlat::GtS;
                }
            },
            WasmOp::I64GeS => {
                seq_i64_ge_s(b, seq);
                proof {
                    fl = WFlat::GeS;
                }
            },
            WasmOp::I64ExtendUI32 => {
                seq_i64_extend_u_i32(b, seq);
                proof {
                    fl = WFlat::ExtendU;
                }
            },
            WasmOp::I32WrapI64 => {
                seq_i32_wrap_i64(b, seq);
                proof {
                    fl = WFlat::Wrap;
                }
            },
            WasmOp::LocalGet(i) => {
                seq_local_get(b, seq, locals[*i]);
                proof {
                    fl = WFlat::LGet(locals@[*i as int]);
                }
            },
            WasmOp::LocalSet(i) => {
                seq_local_set(b, seq, locals[*i]);
                proof {
                    fl = WFlat::LSet(locals@[*i as int]);
                }
            },
            WasmOp::LocalTee(i) => {
                seq_local_tee(b, seq, locals[*i]);
                proof {
                    fl = WFlat::LTee(locals@[*i as int]);
                }
            },
            WasmOp::Block(inner) => {
                let child = dangling_seq_i64(b);
                let ghost m1 = builder_seqs(*b);
                pour_ops(inner, b, child, locals);
                let ghost m2 = builder_seqs(*b);
                seq_block_instr(b, seq, child);
                proof {
                    fl = WFlat::Blk(child);
                    let m3 = builder_seqs(*b);
                    assert(m2[child].skip(0) =~= m2[child]);
                    // the filled child keeps its contents when the parent
                    // sequence is extended, and its denotation carries over
                    assert(m3[child] == m2[child]);
                    lemma_body_denotes_mono(
                        m2,
                        m3,
                        locals@,
                        locals@,
                        m2[child],
                        wasms_view(inner@),
                        m2.dom().difference(m1.dom()),
                        m3.dom().difference(m0.dom()),
                    );
                    assert(locals@.take(locals@.len() as int) =~= locals@);
                }
            },
            WasmOp::IfElse(tv, ev) => {
                let cons = dangling_seq_i64(b);
                let ghost mc1 = builder_seqs(*b);
                pour_ops(tv, b, cons, locals);
                let ghost mc2 = builder_seqs(*b);
                let alt = dangling_seq_i64(b);
                let ghost ma1 = builder_seqs(*b);
                pour_ops(ev, b, alt, locals);
                let ghost ma2 = builder_seqs(*b);
                seq_if_else_instr(b, seq, cons, alt);
                proof {
                    fl = WFlat::If(cons, alt);
                    let m3 = builder_seqs(*b);
                    assert(locals@.take(locals@.len() as int) =~= locals@);
                    assert(mc2[cons].skip(0) =~= mc2[cons]);
                    assert(ma2[alt].skip(0) =~= ma2[alt]);
                    assert(m3[cons] == mc2[cons]);
                    assert(m3[alt] == ma2[alt]);
                    lemma_body_denotes_mono(
                        mc2,
                        m3,
                        locals@,
                        locals@,
                        mc2[cons],
                        wasms_view(tv@),
                        mc2.dom().difference(mc1.dom()),
                        m3.dom().difference(m0.dom()),
                    );
                    lemma_body_denotes_mono(
                        ma2,
                        m3,
                        locals@,
                        locals@,
                        ma2[alt],
                        wasms_view(ev@),
                        ma2.dom().difference(ma1.dom()),
                        m3.dom().difference(m0.dom()),
                    );
                }
            },
        }
        proof {
            let m_new = builder_seqs(*b);
            let a_new = m_new.dom().difference(m0.dom());
            assert(m_new[seq] == m_before[seq].push(fl));
            assert(instr_denotes(m_new, locals@, fl, s[k as int], a_new));
            assert(m_new[seq].take(len0) =~= m0[seq]);
            assert(m_new[seq].skip(len0) =~= m_before[seq].skip(len0).push(fl));
            // what was already poured keeps denoting under the grown map
            lemma_body_denotes_mono(
                m_before,
                m_new,
                locals@,
                locals@,
                m_before[seq].skip(len0),
                s.take(k as int),
                m_before.dom().difference(m0.dom()),
                a_new,
            );
            assert(locals@.take(locals@.len() as int) =~= locals@);
            assert(s.take(k + 1) =~= s.take(k as int).push(s[k as int]));
            assert forall|i: int| 0 <= i < k + 1 implies instr_denotes(
                m_new,
                locals@,
                m_new[seq].skip(len0)[i],
                #[trigger] s.take(k + 1)[i],
                a_new,
            ) by {
                if i < k {
                    assert(m_new[seq].skip(len0)[i] == m_before[seq].skip(len0)[i]);
                } else {
                    assert(m_new[seq].skip(len0)[i] == fl);
                }
            }
        }
        k = k + 1;
    }
    proof {
        assert(s.take(s.len() as int) =~= s);
    }
}

/// Emit one IR instruction into the context's open function body: storage
/// is bound for any slot the instruction touches first, exactly as
/// `emit_op` says of the materialization table, and exactly the machine
/// code of `emit_op` is appended to the body — nothing else reaches the
/// builder. Storage handles already bound keep their place: the old handle
/// table is a prefix of the new one, so every later reference to a slot
/// uses the same handle. On an error the body is untouched — there is no
/// partial emission — though the table keeps any slots materialized before
/// the failure, with their storage bound.
pub fn mir_to_wasm(op: &Mir, context: &mut MirContext) -> (r: Result<(), EmitError>)
    requires
        old(context).wf(),
        old(context).builder_ok(),
    ensures
        final(context).wf(),
        final(context).builder_ok(),
        final(context).locals@.take(old(context).locals@.len() as int) == old(context).locals@,
        final(context).mat@.len() >= old(context).mat@.len(),
        final(context).mat@.take(old(context).mat@.len() as int) == old(context).mat@,
        final(context).builder is Some <==> old(context).builder is Some,
        old(context).builder is None ==> *final(context) == *old(context),
        r is Err ==> final(context).builder == old(context).builder,
        module_funcs(final(context).module) == module_funcs(old(context).module),
        module_exports(final(context).module) == module_exports(old(context).module),
        module_shape_i64(old(context).module) ==> module_shape_i64(final(context).module),
        module_locals(old(context).module) == old(context).locals@ ==> module_locals(
            final(context).module,
        ) == final(context).locals@,
        ({
            let res = emit_op(mir_view(*op), old(context).mat@);
            match r {
                Ok(u) => res matches Ok(p) && old(context).builder is Some
                    && final(context).mat@ == p.1 && (forall|acc: Seq<crate::emit::WasmS>|
                    old(context).body_is(acc) ==> #[trigger] final(context).body_is(acc + p.0)),
                Err(er) => if old(context).builder is None {
                    er == EmitError::BuilderNotSet
                } else {
                    res == Err::<(Seq<crate::emit::WasmS>, MatTable), EmitError>(er)
                },
            }
        }),
{
    if context.builder.is_none() {
        return Err(EmitError::BuilderNotSet);
    }
    let mut code: Vec<WasmOp> = Vec::new();
    let emitted = crate::emit::emit_one(op, &mut context.mat, &mut code);
    proof {
        lemma_emit_op_wf(mir_view(*op), old(context).mat@);
        crate::emit::lemma_emit_op_mat_grows(mir_view(*op), old(context).mat@);
    }
    let ghost mat1 = context.mat@;
    let ghost b1 = context.builder;
    let ghost locals0 = context.locals@;
    while context.locals.len() < context.mat.len()
        invariant
            context.locals@.len() <= context.mat@.len(),
            context.mat@ == mat1,
            context.builder == b1,
            locals0 == old(context).locals@,
            locals0.len() <= context.locals@.len(),
            context.locals@.take(locals0.len() as int) == locals0,
            module_funcs(context.module) == module_funcs(old(context).module),
            module_exports(context.module) == module_exports(old(context).module),
            module_shape_i64(old(context).module) ==> module_shape_i64(context.module),
            module_locals(old(context).module) == locals0 ==> module_locals(context.module)
                == context.locals@,
        decreases context.mat@.len() - context.locals@.len(),
    {
        let ghost lprev = context.locals@;
        let id = locals_add_i64(&mut context.module);
        context.locals.push(id);
        proof {
            assert(context.locals@.take(locals0.len() as int) =~= lprev.take(
                locals0.len() as int,
            ));
        }
    }
    match emitted {
        Err(er) => {
            return Err(er);
        },
        Ok(()) => {},
    }
    proof {
        if let Ok(p) = emit_op(mir_view(*op), old(context).mat@) {
            assert(wasms_view(code@) =~= Seq::<crate::emit::WasmS>::empty() + p.0);
            assert(wasms_view(code@) =~= p.0);
        }
    }
    let b = match self_take_builder(context) {
        Some(b) => b,
        None => {
            proof {
                assert(false);
            }
            vstd::pervasive::unreached()
        },
    };
    let mut b = b;
    let root = body_seq_id(&b);
    let ghost m_before = builder_seqs(b);
    pour_ops(&code, &mut b, root, &context.locals);
    let ghost m_after = builder_seqs(b);
    context.builder = Some(b);
    proof {
        let p = emit_op(mir_view(*op), old(context).mat@)->Ok_0;
        assert forall|acc: Seq<crate::emit::WasmS>| old(context).body_is(acc) implies #[trigger]
            context.body_is(acc + p.0) by {
            let e = builder_entry(context.builder->0);
            assert(e == root);
            assert(m_after.dom().contains(root));
            assert(m_before.dom().remove(root).subset_of(m_after.dom().remove(root)));
            assert(m_after.dom().difference(m_before.dom()).subset_of(
                m_after.dom().remove(root),
            ));
            assert(m_after[root].take(m_before[root].len() as int) == m_before[root]);
            assert(body_denotes(
                m_before,
                locals0,
                m_before[root],
                acc,
                m_before.dom().remove(root),
            ));
            // the old body keeps denoting under the grown map and handles
            lemma_body_denotes_mono(
                m_before,
                m_after,
                locals0,
                context.locals@,
                m_before[root],
                acc,
                m_before.dom().remove(root),
                m_after.dom().remove(root),
            );
            assert(context.locals@.take(context.locals@.len() as int) =~= context.locals@);
            // the appended part denotes the freshly emitted code
            lemma_body_denotes_mono(
                m_after,
                m_after,
                context.locals@,
                context.locals@,
                m_after[root].skip(m_before[root].len() as int),
                p.0,
                m_after.dom().difference(m_before.dom()),
                m_after.dom().remove(root),
            );
            lemma_body_denotes_concat(
                m_after,
                context.locals@,
                m_before[root],
                m_after[root].skip(m_before[root].len() as int),
                acc,
                p.0,
                m_after.dom().remove(root),
            );
            let whole = m_after[root];
            assert(m_before[root] + m_after[root].skip(m_before[root].len() as int) =~= whole);
        }
    }
    Ok(())
}

/// Move the open builder out of the context, leaving none.
fn self_take_builder(context: &mut MirContext) -> (r: Option<walrus::FunctionBuilder>)
    ensures
        r == old(context).builder,
        final(context).builder is None,
        final(context).mat@ == old(context).mat@,
        final(context).locals@ == old(context).locals@,
        final(context).module == old(context).module,
{
    context.builder.take()
}

/// Emit a whole program as a binary module: the instructions are poured
/// into one function with no parameters and one 64-bit integer result,
/// which becomes the module's sole export under the entry-point name
/// "main". The returned bytes are that module's serialization: the named
/// serialization of exactly the emitted machine code over its materialized
/// locals.
pub fn to_wat_module(bytecode: &Vec<Mir>) -> (r: Vec<u8>)
    requires
        emit_program(mirs_view(bytecode@)) is Ok,
    ensures
        emit_program(mirs_view(bytecode@)) matches Ok(p) ==> r@ == module_bytes(p.0, p.1.len()),
{
    let module = module_default();
    let mut context = MirContext::new(module);
    context.set_new_builder();
    let ghost s = mirs_view(bytecode@);
    let ghost pw = emit_program(s)->Ok_0;
    let ghost mut acc: Seq<crate::emit::WasmS> = Seq::empty();
    proof {
        crate::mir::lemma_mirs_view_len(bytecode@);
        assert(s.skip(0) =~= s);
    }
    let mut k: usize = 0;
    while k < bytecode.len()
        invariant
            k <= bytecode@.len(),
            s == mirs_view(bytecode@),
            s.len() == bytecode@.len(),
            context.wf(),
            context.builder is Some,
            context.builder_ok(),
            context.body_is(acc),
            module_locals(context.module) == context.locals@,
            module_funcs(context.module) == (Map::<
                walrus::FunctionId,
                (Seq<walrus::LocalId>, walrus::FunctionBuilder),
            >::empty()),
            module_exports(context.module) == (Map::<Seq<char>, walrus::FunctionId>::empty()),
            module_shape_i64(context.module),
            pw == emit_program(s)->Ok_0,
            emit_seq(s, Seq::empty()) == Ok::<(Seq<crate::emit::WasmS>, MatTable), EmitError>(pw),
            (emit_seq(s.skip(k as int), context.mat@) matches Ok(rest) && pw.0 == acc + rest.0
                && pw.1 == rest.1),
        decreases bytecode@.len() - k,
    {
        proof {
            crate::emit::lemma_emit_seq_skip_unfold(s, k as int, context.mat@);
            crate::mir::lemma_mirs_view_index(bytecode@, k as int);
        }
        let ghost acc_old = acc;
        let ghost mat_pre = context.mat@;
        match mir_to_wasm(&bytecode[k], &mut context) {
            Err(_) => {
                proof {
                    assert(false);
                }
            },
            Ok(()) => {},
        }
        proof {
            if let Ok(p) = emit_op(s[k as int], mat_pre) {
                acc = acc_old + p.0;
                if let Ok(rest2) = emit_seq(s.skip(k + 1), p.1) {
                    assert(acc_old + (p.0 + rest2.0) =~= acc + rest2.0);
                }
            }
        }
        k = k + 1;
    }
    proof {
        assert(s.skip(s.len() as int) =~= Seq::<crate::mir::MirS>::empty());
        assert(pw.0 =~= acc + Seq::<crate::emit::WasmS>::empty());
        assert(pw.0 =~= acc);
    }
    let ghost bsaved = context.builder->0;
    let ghost sqb = builder_seqs(bsaved);
    let ghost eb = builder_entry(bsaved);
    let ghost handles = context.locals@;
    let function = match context.finish_builder(Vec::new()) {
        Ok(f) => f,
        Err(_) => {
            proof {
                assert(false);
            }
            vstd::pervasive::unreached()
        },
    };
    context.export_function("main", function);
    proof {
        let m = context.module;
        assert(module_funcs(m).dom() =~= set![function]);
        assert(module_funcs(m)[function].1 == bsaved);
        assert(module_funcs(m)[function].0 =~= Seq::<walrus::LocalId>::empty());
        assert(module_exports(m) =~= map!["main"@ => function]);
        assert(module_locals(m) == handles);
        assert(sqb.dom().contains(eb));
        assert(body_denotes(sqb, handles, sqb[eb], pw.0, sqb.dom().remove(eb)));
        crate::emit::lemma_emit_seq_uses(s, Seq::empty());
        assert(crate::emit::all_locals_used(pw.0, module_locals(m).len() as int));
        assert(single_main_module(m, function, pw.0));
        assert(module_locals(m).len() == pw.1.len());
    }
    context.emit_wasm()
}

/// Emit a program and hold the result against the renderer: the serialized
/// module's bytes when emission succeeds and the renderer accepts them;
/// otherwise the error that stopped emission, with `InvalidModule` exactly
/// when the renderer refused those bytes.
pub fn to_wasm_module(bytecode: &Vec<Mir>) -> (r: Result<Vec<u8>, EmitError>)
    ensures
        ({
            let res = emit_program(mirs_view(bytecode@));
            match r {
                Ok(w) => res matches Ok(p) && w@ == module_bytes(p.0, p.1.len()) && printable(w@),
                Err(er) => res == Err::<(Seq<crate::emit::WasmS>, MatTable), EmitError>(er) || (er
                    == EmitError::InvalidModule && (res matches Ok(p) && !printable(
                    module_bytes(p.0, p.1.len()),
                ))),
            }
        }),
{
    let mut mat: Vec<u32> = Vec::new();
    let mut code: Vec<WasmOp> = Vec::new();
    match emit_ops(bytecode, &mut mat, &mut code) {
        Err(er) => {
            return Err(er);
        },
        Ok(()) => {},
    }
    let wasm = to_wat_module(bytecode);
    match print_wasm(&wasm) {
        Ok(_) => Ok(wasm),
        Err(_) => Err(EmitError::InvalidModule),
    }
}

} // verus!
