//! What the compiled programs mean.
//!
//! Two semantics live here. `eval_expr` is the reference evaluator of the
//! lowerable source subset: every value is a 64-bit integer (booleans are 1
//! and 0), arithmetic wraps, division and remainder by zero trap — and, as
//! in the emitted code, a remainder of the minimum value by -1 is 0 while
//! the corresponding division traps. A conditional tests its condition
//! narrowed to 32 bits, exactly as the emitted module does. The variable
//! environment mirrors the flat slot table of lowering: reading an unknown
//! name yields 0 and binds it, `let` always appends a binding, assignment
//! updates the newest binding of the name.
//!
//! `mrun_seq` is the stack-machine semantics of the IR: instructions act on
//! an operand stack and a store of zero-initialized locals; a nested block
//! or branch body runs on an empty stack and must leave exactly one value,
//! as the structured target format demands. `None` is a trap or a program
//! the target format would reject.

use vstd::prelude::*;
use crate::ast::Atom;
use crate::ast::Expr;
use crate::ast::Opcode;
use crate::emit::MatTable;
use crate::emit::WasmS;
use crate::emit::emit_op;
use crate::emit::emit_program;
use crate::emit::emit_seq;
use crate::emit::materialize;
use crate::mir::MirS;
use crate::mir::SlotTable;
use crate::mir::binop_mir;
use crate::mir::lower_expr;
use crate::mir::lower_program;

verus! {

/// Why evaluation can reject or abort an input. The first four mirror the
/// lowering errors; `Trap` is a runtime abort (division or remainder by
/// zero, or an unrepresentable quotient).
#[derive(Debug, Clone, Copy, PartialEq, Eq)]
pub enum EvalError {
    UndefinedVariable,
    InvalidAssignmentTarget,
    UnsupportedExpression,
    UnsupportedOpcode(Opcode),
    Trap,
}

/// The evaluator's environment: name and value of each binding, oldest
/// first. Positions correspond to the slot table of lowering.
pub type Env = Seq<(Seq<char>, i64)>;

/// The newest binding of `name`: the index of its last occurrence.
pub open spec fn env_slot(env: Env, name: Seq<char>) -> Option<int>
    decreases env.len(),
{
    if env.len() == 0 {
        None
    } else if env.last().0 == name {
        Some(env.len() - 1)
    } else {
        env_slot(env.drop_last(), name)
    }
}

/// A conditional takes its "then" branch when the condition, narrowed to
/// the 32-bit test width, is not zero.
pub open spec fn truthy(v: i64) -> bool {
    (v as u32) != 0
}

/// What one arithmetic or comparison instruction computes: wrapping
/// arithmetic, trapping division and remainder, comparisons as 1 or 0.
/// `None` is a trap.
pub open spec fn mir_apply(m: MirS, a: i64, b: i64) -> Option<i64> {
    match m {
        MirS::AddI64 => Some(a.wrapping_add(b)),
        MirS::SubI64 => Some(a.wrapping_sub(b)),
        MirS::MulI64 => Some(a.wrapping_mul(b)),
        MirS::DivI64 => a.checked_div(b),
        MirS::ModI64 => if b == -1 {
            if a == i64::MIN {
                Some(0)
            } else {
                a.checked_rem(b)
            }
        } else {
            a.checked_rem(b)
        },
        MirS::GreaterThanI64 => Some(
            if a > b {
                1
            } else {
                0
            },
        ),
        MirS::LessThanI64 => Some(
            if a < b {
                1
            } else {
                0
            },
        ),
        MirS::EqualI64 => Some(
            if a == b {
                1
            } else {
                0
            },
        ),
        MirS::NotEqualI64 => Some(
            if a != b {
                1
            } else {
                0
            },
        ),
        MirS::GreaterThanOrEqualI64 => Some(
            if a >= b {
                1
            } else {
                0
            },
        ),
        MirS::LessThanOrEqualI64 => Some(
            if a <= b {
                1
            } else {
                0
            },
        ),
        _ => None,
    }
}

/// The six comparison instructions of the IR.
pub open spec fn is_comparison(m: MirS) -> bool {
    match m {
        MirS::GreaterThanI64 => true,
        MirS::LessThanI64 => true,
        MirS::EqualI64 => true,
        MirS::NotEqualI64 => true,
        MirS::GreaterThanOrEqualI64 => true,
        MirS::LessThanOrEqualI64 => true,
        _ => false,
    }
}

/// The semantic half of the widening law: a comparison never traps, its
/// result is exactly 0 or 1, and narrowing that result to 32 bits and
/// widening it back (the conversion the emitter appends) returns it
/// unchanged — so arithmetic downstream of a widened comparison consumes
/// exactly 0 or 1 at the 64-bit working width.
pub proof fn lemma_comparison_result_boolean(m: MirS, a: i64, b: i64)
    requires
        is_comparison(m),
    ensures
        mir_apply(m, a, b) matches Some(v) ==> ((v == 0 || v == 1) && ((v as u32) as i64) == v),
        mir_apply(m, a, b) is Some,
{
}

/// The reference evaluation judgment: a value and the environment after it,
/// or the error that stops evaluation. The rules mirror lowering rule for
/// rule. One caveat keeps the mirror from being exact: the slot table is
/// grown by lowering, which walks both arms of every conditional, while
/// this environment only ever grows along the executed path — so a name
/// whose visible slot was shadowed by a `let` in a branch that did not
/// execute reads its old value here but the fresh, zeroed slot in the
/// emitted module. On programs without such cross-branch shadowing the two
/// agree; the round-trip lemmas below make that exact for the
/// arithmetic-and-conditional fragment.
pub open spec fn eval_expr(e: Expr, env: Env) -> Result<(i64, Env), EvalError>
    decreases e,
{
    match e {
        Expr::Constant(a) => match a {
            Atom::Num(n) => Ok((n, env)),
            Atom::Boolean(b) => Ok(
                (
                    if b {
                        1
                    } else {
                        0
                    },
                    env,
                ),
            ),
            Atom::Identifier(id) => match env_slot(env, id@) {
                Some(i) => Ok((env[i].1, env)),
                None => Ok((0, env.push((id@, 0)))),
            },
            Atom::Text(_) => Err(EvalError::UnsupportedExpression),
        },
        Expr::BinaryOp(l, op, r) => {
            if op == Opcode::Assign {
                match eval_expr(*r, env) {
                    Ok((v, env1)) => match *l {
                        Expr::Constant(Atom::Identifier(id)) => match env_slot(env1, id@) {
                            Some(i) => Ok((v, env1.update(i, (env1[i].0, v)))),
                            None => Err(EvalError::UndefinedVariable),
                        },
                        _ => Err(EvalError::InvalidAssignmentTarget),
                    },
                    Err(er) => Err(er),
                }
            } else {
                match eval_expr(*l, env) {
                    Ok((a, env1)) => match eval_expr(*r, env1) {
                        Ok((b, env2)) => match binop_mir(op) {
                            Some(m) => match mir_apply(m, a, b) {
                                Some(v) => Ok((v, env2)),
                                None => Err(EvalError::Trap),
                            },
                            None => Err(EvalError::UnsupportedOpcode(op)),
                        },
                        Err(er) => Err(er),
                    },
                    Err(er) => Err(er),
                }
            }
        },
        Expr::UnaryOp(op, inner) => {
            if op == Opcode::Neg {
                match eval_expr(*inner, env) {
                    Ok((v, env1)) => Ok(((0i64).wrapping_sub(v), env1)),
                    Err(er) => Err(er),
                }
            } else {
                Err(EvalError::UnsupportedOpcode(op))
            }
        },
        Expr::Let(name, inner) => {
            match eval_expr(*inner, env) {
                Ok((v, env1)) => Ok((v, env1.push((name@, v)))),
                Err(er) => Err(er),
            }
        },
        Expr::Block(exprs) => eval_seq(exprs@, env),
        Expr::IfElse(cond, th, el) => {
            match eval_expr(*cond, env) {
                Ok((c, env1)) => {
                    if truthy(c) {
                        eval_expr(*th, env1)
                    } else {
                        match el {
                            Some(eb) => eval_expr(*eb, env1),
                            None => Ok((0, env1)),
                        }
                    }
                },
                Err(er) => Err(er),
            }
        },
        _ => Err(EvalError::UnsupportedExpression),
    }
}

/// Evaluation of the parts of a block: the block's value is its last
/// part's value (0 for an empty block), the environment threads through.
pub open spec fn eval_seq(es: Seq<Expr>, env: Env) -> Result<(i64, Env), EvalError>
    decreases es,
{
    if es.len() == 0 {
        Ok((0, env))
    } else {
        match eval_expr(es.first(), env) {
            Ok(p) => {
                if es.len() == 1 {
                    Ok(p)
                } else {
                    eval_seq(es.drop_first(), p.1)
                }
            },
            Err(er) => Err(er),
        }
    }
}

/// Evaluation of a whole program: an empty environment, only the value.
pub open spec fn eval_program(e: Expr) -> Result<i64, EvalError> {
    match eval_expr(e, Seq::empty()) {
        Ok((v, _)) => Ok(v),
        Err(er) => Err(er),
    }
}

/// The environment a vector of bindings stands for.
pub open spec fn envv(bindings: Seq<(String, i64)>) -> Env {
    bindings.map_values(|p: (String, i64)| (p.0@, p.1))
}

/// The newest binding of `name` in the exec environment.
fn lookup_env(env: &Vec<(String, i64)>, name: &String) -> (r: Option<usize>)
    ensures
        match r {
            Some(i) => env_slot(envv(env@), name@) == Some(i as int) && i < env@.len(),
            None => env_slot(envv(env@), name@) is None,
        },
{
    let ghost t = envv(env@);
    let mut i: usize = env.len();
    assert(t.take(i as int) =~= t);
    loop
        invariant
            i <= env@.len(),
            t == envv(env@),
            t.len() == env@.len(),
            env_slot(t, name@) == env_slot(t.take(i as int), name@),
        decreases i,
    {
        if i == 0 {
            return None;
        }
        i = i - 1;
        let hit = env[i].0 == *name;
        proof {
            assert(t.take(i + 1).last() == t[i as int]);
            assert(t[i as int] == (env@[i as int].0@, env@[i as int].1));
            assert(t.take(i + 1).drop_last() =~= t.take(i as int));
        }
        if hit {
            return Some(i);
        }
    }
}

/// One arithmetic or comparison step, as `mir_apply` says of the operator's
/// instruction.
fn apply_op(op: Opcode, a: i64, b: i64) -> (r: Result<i64, EvalError>)
    ensures
        ({
            match binop_mir(op) {
                Some(m) => match mir_apply(m, a, b) {
                    Some(v) => r == Ok::<i64, EvalError>(v),
                    None => r == Err::<i64, EvalError>(EvalError::Trap),
                },
                None => r == Err::<i64, EvalError>(EvalError::UnsupportedOpcode(op)),
            }
        }),
{
    match op {
        Opcode::Add => Ok(a.wrapping_add(b)),
        Opcode::Sub => Ok(a.wrapping_sub(b)),
        Opcode::Mul => Ok(a.wrapping_mul(b)),
        Opcode::Div => match a.checked_div(b) {
            Some(v) => Ok(v),
            None => Err(EvalError::Trap),
        },
        Opcode::Mod => {
            if b == -1 {
                if a == i64::MIN {
                    Ok(0)
                } else {
                    match a.checked_rem(b) {
                        Some(v) => Ok(v),
                        None => Err(EvalError::Trap),
                    }
                }
            } else {
                match a.checked_rem(b) {
                    Some(v) => Ok(v),
                    None => Err(EvalError::Trap),
                }
            }
        },
        Opcode::Greater => Ok(
            if a > b {
                1
            } else {
                0
            },
        ),
        Opcode::Less => Ok(
            if a < b {
                1
            } else {
                0
            },
        ),
        Opcode::Equal => Ok(
            if a == b {
                1
            } else {
                0
            },
        ),
        Opcode::NotEqual => Ok(
            if a != b {
                1
            } else {
                0
            },
        ),
        Opcode::GreaterEqual => Ok(
            if a >= b {
                1
            } else {
                0
            },
        ),
        Opcode::LessEqual => Ok(
            if a <= b {
                1
            } else {
                0
            },
        ),
        o => Err(EvalError::UnsupportedOpcode(o)),
    }
}

/// Whether the narrowed condition selects the "then" branch.
fn truthy_exec(c: i64) -> (r: bool)
    ensures
        r == truthy(c),
{
    (#[verifier::truncate] (c as u32)) != 0
}

proof fn lemma_envv_push(bindings: Seq<(String, i64)>, name: String, v: i64)
    ensures
        envv(bindings.push((name, v))) =~= envv(bindings).push((name@, v)),
{
}

proof fn lemma_envv_update(bindings: Seq<(String, i64)>, i: int, name: String, v: i64)
    requires
        0 <= i < bindings.len(),
    ensures
        envv(bindings.update(i, (name, v))) =~= envv(bindings).update(i, (name@, v)),
{
}

/// A found binding really carries the looked-up name.
proof fn lemma_env_slot_found(env: Env, name: Seq<char>)
    ensures
        env_slot(env, name) matches Some(i) ==> 0 <= i < env.len() && env[i].0 == name,
    decreases env.len(),
{
    if env.len() > 0 && env.last().0 != name {
        lemma_env_slot_found(env.drop_last(), name);
    }
}

proof fn lemma_eval_seq_skip_unfold(es: Seq<Expr>, k: int, env: Env)
    requires
        0 <= k < es.len(),
    ensures
        eval_seq(es.skip(k), env) == (match eval_expr(es[k], env) {
            Ok(p) => {
                if k + 1 == es.len() {
                    Ok::<(i64, Env), EvalError>(p)
                } else {
                    eval_seq(es.skip(k + 1), p.1)
                }
            },
            Err(er) => Err(er),
        }),
{
    assert(es.skip(k).first() == es[k]);
    assert(es.skip(k).drop_first() =~= es.skip(k + 1));
}

/// Evaluate one expression, threading the environment, exactly as
/// `eval_expr` says.
#[verifier::rlimit(100)]
fn eval_in(ast: &Expr, env: &mut Vec<(String, i64)>) -> (r: Result<i64, EvalError>)
    ensures
        ({
            let res = eval_expr(*ast, envv(old(env)@));
            match r {
                Ok(v) => res matches Ok(p) && p.0 == v && envv(final(env)@) == p.1,
                Err(er) => res == Err::<(i64, Env), EvalError>(er),
            }
        }),
    decreases *ast,
{
    let ghost env0 = envv(env@);
    match ast {
        Expr::Constant(atom) => match atom {
            Atom::Num(num) => Ok(*num),
            Atom::Boolean(b) => Ok(
                if *b {
                    1
                } else {
                    0
                },
            ),
            Atom::Identifier(ident) => match lookup_env(env, ident) {
                Some(i) => {
                    let v = env[i].1;
                    proof {
                        assert(env0[i as int] == (env@[i as int].0@, env@[i as int].1));
                    }
                    Ok(v)
                },
                None => {
                    env.push((ident.clone(), 0));
                    proof {
                        lemma_envv_push(old(env)@, *ident, 0);
                    }
                    Ok(0)
                },
            },
            Atom::Text(_) => Err(EvalError::UnsupportedExpression),
        },
        Expr::BinaryOp(lhs, op, rhs) => {
            match *op {
                Opcode::Assign => {
                    let v = match eval_in(rhs, env) {
                        Err(er) => {
                            return Err(er);
                        },
                        Ok(v) => v,
                    };
                    match &**lhs {
                        Expr::Constant(a2) => match a2 {
                            Atom::Identifier(id) => match lookup_env(env, id) {
                                Some(i) => {
                                    let ghost env1 = envv(env@);
                                    let ghost bindings1 = env@;
                                    proof {
                                        lemma_env_slot_found(env1, id@);
                                    }
                                    env.set(i, (id.clone(), v));
                                    proof {
                                        lemma_envv_update(bindings1, i as int, *id, v);
                                        assert(env1[i as int].0 == id@);
                                        assert(envv(env@) =~= env1.update(
                                            i as int,
                                            (env1[i as int].0, v),
                                        ));
                                    }
                                    Ok(v)
                                },
                                None => Err(EvalError::UndefinedVariable),
                            },
                            _ => Err(EvalError::InvalidAssignmentTarget),
                        },
                        _ => Err(EvalError::InvalidAssignmentTarget),
                    }
                },
                o => {
                    let a = match eval_in(lhs, env) {
                        Err(er) => {
                            return Err(er);
                        },
                        Ok(v) => v,
                    };
                    let b = match eval_in(rhs, env) {
                        Err(er) => {
                            return Err(er);
                        },
                        Ok(v) => v,
                    };
                    apply_op(o, a, b)
                },
            }
        },
        Expr::UnaryOp(op, inner) => {
            match *op {
                Opcode::Neg => {
                    match eval_in(inner, env) {
                        Err(er) => Err(er),
                        Ok(v) => Ok((0i64).wrapping_sub(v)),
                    }
                },
                o => Err(EvalError::UnsupportedOpcode(o)),
            }
        },
        Expr::Let(ident, inner) => {
            let v = match eval_in(inner, env) {
                Err(er) => {
                    return Err(er);
                },
                Ok(v) => v,
            };
            let ghost bindings1 = env@;
            env.push((ident.clone(), v));
            proof {
                lemma_envv_push(bindings1, *ident, v);
            }
            Ok(v)
        },
        Expr::Block(exprs) => {
            let ghost es = exprs@;
            let mut result: i64 = 0;
            proof {
                assert(es.skip(0) =~= es);
            }
            let mut k: usize = 0;
            while k < exprs.len()
                invariant
                    k <= es.len(),
                    exprs@ == es,
                    *ast == Expr::Block(*exprs),
                    env0 == envv(old(env)@),
                    (k < es.len() ==> (match eval_seq(es.skip(k as int), envv(env@)) {
                        Ok(p) => eval_seq(es, env0) == Ok::<(i64, Env), EvalError>(p),
                        Err(er) => eval_seq(es, env0) == Err::<(i64, Env), EvalError>(er),
                    })),
                    (k == es.len() ==> eval_seq(es, env0) == Ok::<(i64, Env), EvalError>(
                        (result, envv(env@)),
                    )),
                decreases es.len() - k,
            {
                proof {
                    lemma_eval_seq_skip_unfold(es, k as int, envv(env@));
                }
                match eval_in(&exprs[k], env) {
                    Err(er) => {
                        return Err(er);
                    },
                    Ok(v) => {
                        result = v;
                    },
                }
                k = k + 1;
            }
            Ok(result)
        },
        Expr::IfElse(cond, then_expr, else_expr) => {
            let c = match eval_in(cond, env) {
                Err(er) => {
                    return Err(er);
                },
                Ok(v) => v,
            };
            if truthy_exec(c) {
                eval_in(then_expr, env)
            } else {
                match else_expr {
                    Some(eb) => eval_in(eb, env),
                    None => Ok(0),
                }
            }
        },
        _ => Err(EvalError::UnsupportedExpression),
    }
}

/// Evaluate a whole program in an empty environment: the reference the
/// compiled module is held against.
pub fn eval(ast: &Expr) -> (r: Result<i64, EvalError>)
    ensures
        ({
            let res = eval_program(*ast);
            match r {
                Ok(v) => res == Ok::<i64, EvalError>(v),
                Err(er) => res == Err::<i64, EvalError>(er),
            }
        }),
{
    let mut env: Vec<(String, i64)> = Vec::new();
    proof {
        assert(envv(env@) =~= Seq::<(Seq<char>, i64)>::empty());
    }
    match eval_in(ast, &mut env) {
        Ok(v) => Ok(v),
        Err(er) => Err(er),
    }
}

/// State of the IR's abstract stack machine: the operand stack and the
/// zero-initialized local store, keyed by logical slot.
#[verifier::ext_equal]
pub struct MState {
    pub stack: Seq<i64>,
    pub locals: Map<u32, i64>,
}

/// A local that was never written reads as zero.
pub open spec fn local_read(locals: Map<u32, i64>, k: u32) -> i64 {
    if locals.dom().contains(k) {
        locals[k]
    } else {
        0
    }
}

/// One instruction of the stack machine. `None` is a trap, a stack
/// underflow, or a construct the structured target format rejects: a loop,
/// a result-carrying conditional without an else branch, or a nested body
/// that does not leave exactly one value.
pub open spec fn mrun_op(m: MirS, st: MState) -> Option<MState>
    decreases m,
{
    match m {
        MirS::ConstI64(n) => Some(MState { stack: st.stack.push(n), locals: st.locals }),
        MirS::LocalGet(k) => Some(
            MState { stack: st.stack.push(local_read(st.locals, k)), locals: st.locals },
        ),
        MirS::LocalSet(k) => if st.stack.len() < 1 {
            None
        } else {
            Some(
                MState {
                    stack: st.stack.drop_last(),
                    locals: st.locals.insert(k, st.stack.last()),
                },
            )
        },
        MirS::LocalTee(k) => if st.stack.len() < 1 {
            None
        } else {
            Some(MState { stack: st.stack, locals: st.locals.insert(k, st.stack.last()) })
        },
        MirS::Drop => if st.stack.len() < 1 {
            None
        } else {
            Some(MState { stack: st.stack.drop_last(), locals: st.locals })
        },
        MirS::Block(ops) => match mrun_seq(ops, MState { stack: Seq::empty(), locals: st.locals }) {
            Some(st2) => if st2.stack.len() == 1 {
                Some(MState { stack: st.stack.push(st2.stack[0]), locals: st2.locals })
            } else {
                None
            },
            None => None,
        },
        MirS::IfElse(tc, el) => match el {
            Some(ec) => if st.stack.len() < 1 {
                None
            } else {
                let body = if truthy(st.stack.last()) {
                    tc
                } else {
                    ec
                };
                match mrun_seq(body, MState { stack: Seq::empty(), locals: st.locals }) {
                    Some(st2) => if st2.stack.len() == 1 {
                        Some(
                            MState {
                                stack: st.stack.drop_last().push(st2.stack[0]),
                                locals: st2.locals,
                            },
                        )
                    } else {
                        None
                    },
                    None => None,
                }
            },
            None => None,
        },
        MirS::Loop(_) => None,
        _ => {
            if st.stack.len() < 2 {
                None
            } else {
                let b = st.stack.last();
                let a = st.stack[st.stack.len() - 2];
                match mir_apply(m, a, b) {
                    Some(v) => Some(
                        MState {
                            stack: st.stack.drop_last().drop_last().push(v),
                            locals: st.locals,
                        },
                    ),
                    None => None,
                }
            }
        },
    }
}

/// Running an instruction sequence, left to right.
pub open spec fn mrun_seq(s: Seq<MirS>, st: MState) -> Option<MState>
    decreases s,
{
    if s.len() == 0 {
        Some(st)
    } else {
        match mrun_op(s.first(), st) {
            Some(st1) => mrun_seq(s.drop_first(), st1),
            None => None,
        }
    }
}

/// Running a concatenation runs the parts in order.
pub proof fn lemma_mrun_seq_concat(a: Seq<MirS>, b: Seq<MirS>, st: MState)
    ensures
        mrun_seq(a + b, st) == (match mrun_seq(a, st) {
            Some(st1) => mrun_seq(b, st1),
            None => None,
        }),
    decreases a,
{
    if a.len() == 0 {
        assert(a + b =~= b);
    } else {
        assert((a + b).first() == a.first());
        assert((a + b).drop_first() =~= a.drop_first() + b);
        match mrun_op(a.first(), st) {
            Some(st1) => lemma_mrun_seq_concat(a.drop_first(), b, st1),
            None => {},
        }
    }
}

/// Running a single instruction is that instruction's step.
pub proof fn lemma_mrun_single(m: MirS, st: MState)
    ensures
        mrun_seq(seq![m], st) == mrun_op(m, st),
{
    assert(seq![m].first() == m);
    assert(seq![m].drop_first() =~= Seq::<MirS>::empty());
    match mrun_op(m, st) {
        Some(st1) => {
            assert(mrun_seq(Seq::<MirS>::empty(), st1) == Some(st1));
            assert(mrun_seq(seq![m].drop_first(), st1) == Some(st1));
        },
        None => {},
    }
}

/// The arithmetic-only fragment: number and boolean literals, lowered
/// binary operators, unary negation; no variables, blocks or conditionals.
pub open spec fn arith_only(e: Expr) -> bool
    decreases e,
{
    match e {
        Expr::Constant(a) => match a {
            Atom::Num(_) => true,
            Atom::Boolean(_) => true,
            _ => false,
        },
        Expr::BinaryOp(l, op, r) => binop_mir(op) is Some && arith_only(*l) && arith_only(*r),
        Expr::UnaryOp(op, inner) => op == Opcode::Neg && arith_only(*inner),
        _ => false,
    }
}

/// Compiling an arithmetic-only expression and running the stack machine
/// computes exactly what the reference evaluator says: the lowered code
/// pushes the evaluator's value onto any stack, leaving locals and the
/// slot table untouched, and traps exactly when the evaluator traps.
pub proof fn lemma_compile_correct_arith(e: Expr, t: SlotTable, env: Env, st: MState)
    requires
        arith_only(e),
    ensures
        lower_expr(e, t) matches Ok(p) && p.1 == t && (match eval_expr(e, env) {
            Ok(q) => q.1 == env && mrun_seq(p.0, st) == Some(
                MState { stack: st.stack.push(q.0), locals: st.locals },
            ),
            Err(er) => er == EvalError::Trap && mrun_seq(p.0, st) is None,
        }),
    decreases e,
{
    match e {
        Expr::Constant(a) => {
            match a {
                Atom::Num(n) => {
                    lemma_mrun_single(MirS::ConstI64(n), st);
                },
                Atom::Boolean(b) => {
                    let n: i64 = if b {
                        1
                    } else {
                        0
                    };
                    lemma_mrun_single(MirS::ConstI64(n), st);
                },
                _ => {},
            }
        },
        Expr::BinaryOp(l, op, r) => {
            let m = binop_mir(op)->0;
            lemma_compile_correct_arith(*l, t, env, st);
            match lower_expr(*l, t) {
                Ok(pl) => {
                    match eval_expr(*l, env) {
                        Ok(ql) => {
                            let st1 = MState { stack: st.stack.push(ql.0), locals: st.locals };
                            lemma_compile_correct_arith(*r, t, env, st1);
                            match lower_expr(*r, t) {
                                Ok(pr) => {
                                    lemma_mrun_seq_concat(pl.0, pr.0, st);
                                    assert(pl.0 + pr.0 + seq![m] =~= pl.0 + (pr.0 + seq![m]));
                                    lemma_mrun_seq_concat(pl.0, pr.0 + seq![m], st);
                                    match eval_expr(*r, env) {
                                        Ok(qr) => {
                                            let st2 = MState {
                                                stack: st1.stack.push(qr.0),
                                                locals: st.locals,
                                            };
                                            lemma_mrun_seq_concat(pr.0, seq![m], st1);
                                            lemma_mrun_single(m, st2);
                                            assert(st2.stack.len() >= 2);
                                            assert(st2.stack.last() == qr.0);
                                            assert(st2.stack[st2.stack.len() - 2] == ql.0);
                                            match mir_apply(m, ql.0, qr.0) {
                                                Some(v) => {
                                                    assert(st2.stack.drop_last().drop_last().push(
                                                        v,
                                                    ) =~= st.stack.push(v));
                                                },
                                                None => {},
                                            }
                                        },
                                        Err(_) => {
                                            lemma_mrun_seq_concat(pr.0, seq![m], st1);
                                        },
                                    }
                                },
                                Err(_) => {},
                            }
                        },
                        Err(_) => {
                            // the left code traps; so does the whole
                            lemma_compile_correct_arith(*r, t, env, st);
                            match lower_expr(*r, t) {
                                Ok(pr) => {
                                    assert(pl.0 + pr.0 + seq![m] =~= pl.0 + (pr.0 + seq![m]));
                                    lemma_mrun_seq_concat(pl.0, pr.0 + seq![m], st);
                                },
                                Err(_) => {},
                            }
                        },
                    }
                },
                Err(_) => {},
            }
        },
        Expr::UnaryOp(op, inner) => {
            let zero = seq![MirS::ConstI64(0)];
            let st0 = MState { stack: st.stack.push(0), locals: st.locals };
            lemma_compile_correct_arith(*inner, t, env, st0);
            match lower_expr(*inner, t) {
                Ok(pi) => {
                    assert(zero + pi.0 + seq![MirS::SubI64] =~= zero + (pi.0 + seq![
                        MirS::SubI64,
                    ]));
                    lemma_mrun_seq_concat(zero, pi.0 + seq![MirS::SubI64], st);
                    lemma_mrun_single(MirS::ConstI64(0), st);
                    assert(mrun_seq(zero, st) == Some(st0));
                    lemma_mrun_seq_concat(pi.0, seq![MirS::SubI64], st0);
                    match eval_expr(*inner, env) {
                        Ok(qi) => {
                            let st1 = MState { stack: st0.stack.push(qi.0), locals: st.locals };
                            lemma_mrun_single(MirS::SubI64, st1);
                            assert(st1.stack.len() >= 2);
                            assert(st1.stack.last() == qi.0);
                            assert(st1.stack[st1.stack.len() - 2] == 0i64);
                            assert(mir_apply(MirS::SubI64, 0, qi.0) == Some(
                                (0i64).wrapping_sub(qi.0),
                            ));
                            assert(st1.stack.drop_last().drop_last().push((0i64).wrapping_sub(qi.0))
                                =~= st.stack.push((0i64).wrapping_sub(qi.0)));
                        },
                        Err(_) => {},
                    }
                },
                Err(_) => {},
            }
        },
        _ => {},
    }
}

/// A compiled conditional executes only the selected branch. With the
/// condition's value left on the stack, a non-zero value — non-zero after
/// the narrowing to the 32-bit test width — runs the "then" code alone,
/// and a zero value runs the "else" code alone, each on an empty stack of
/// its own; the branch's value replaces the condition on the stack.
pub open spec fn conditional_selects(
    c: Expr,
    th: Expr,
    eb: Expr,
    e: Expr,
    t: SlotTable,
    env: Env,
    st: MState,
) -> bool {
    lower_expr(e, t) matches Ok(p) && p.1 == t && (match eval_expr(c, env) {
        Ok(qc) => (match eval_expr(
            if truthy(qc.0) {
                th
            } else {
                eb
            },
            env,
        ) {
            Ok(qb) => mrun_seq(p.0, st) == Some(
                MState { stack: st.stack.push(qb.0), locals: st.locals },
            ),
            Err(er) => er == EvalError::Trap && mrun_seq(p.0, st) is None,
        }),
        Err(er) => er == EvalError::Trap && mrun_seq(p.0, st) is None,
    })
}

pub proof fn lemma_conditional_selects_branch(e: Expr, t: SlotTable, env: Env, st: MState)
    ensures
        e matches Expr::IfElse(c, th, el) ==> (el matches Some(eb) ==> (arith_only(*c)
            && arith_only(*th) && arith_only(*eb) ==> conditional_selects(
            *c,
            *th,
            *eb,
            e,
            t,
            env,
            st,
        ))),
{
    match e {
        Expr::IfElse(c, th, el) => {
            match el {
                Some(eb) => {
                    if arith_only(*c) && arith_only(*th) && arith_only(*eb) {
                        lemma_compile_correct_arith(*c, t, env, st);
                        let pc = match lower_expr(*c, t) {
                            Ok(pc) => pc,
                            Err(_) => arbitrary(),
                        };
                        let empty_st = MState { stack: Seq::empty(), locals: st.locals };
                        lemma_compile_correct_arith(*th, t, env, empty_st);
                        lemma_compile_correct_arith(*eb, t, env, empty_st);
                        let tc = match lower_expr(*th, t) {
                            Ok(pt) => pt.0,
                            Err(_) => arbitrary(),
                        };
                        let ec = match lower_expr(*eb, t) {
                            Ok(pe) => pe.0,
                            Err(_) => arbitrary(),
                        };
                        let ifop = MirS::IfElse(tc, Some(ec));
                        assert(pc.0.push(ifop) =~= pc.0 + seq![ifop]);
                        lemma_mrun_seq_concat(pc.0, seq![ifop], st);
                        match eval_expr(*c, env) {
                            Ok(qc) => {
                                let st1 = MState { stack: st.stack.push(qc.0), locals: st.locals };
                                lemma_mrun_single(ifop, st1);
                                assert(st1.stack.last() == qc.0);
                                let taken = if truthy(qc.0) {
                                    *th
                                } else {
                                    *eb
                                };
                                match eval_expr(taken, env) {
                                    Ok(qb) => {
                                        assert(st1.stack.drop_last().push(qb.0) =~= st.stack.push(
                                            qb.0,
                                        ));
                                    },
                                    Err(_) => {},
                                }
                            },
                            Err(_) => {},
                        }
                    }
                },
                None => {},
            }
        },
        _ => {},
    }
}

/// Round trip of the arithmetic fragment: compiling an arithmetic-only
/// expression and executing the result on an empty stack leaves exactly the
/// value the reference evaluator computes, and traps exactly when the
/// evaluator traps.
pub proof fn lemma_round_trip_arith(e: Expr)
    requires
        arith_only(e),
    ensures
        lower_program(e) matches Ok(c) && (match eval_program(e) {
            Ok(v) => mrun_seq(c, MState { stack: Seq::empty(), locals: Map::empty() }) == Some(
                MState { stack: seq![v], locals: Map::empty() },
            ),
            Err(er) => er == EvalError::Trap && mrun_seq(
                c,
                MState { stack: Seq::empty(), locals: Map::empty() },
            ) is None,
        }),
{
    let st = MState { stack: Seq::empty(), locals: Map::empty() };
    lemma_compile_correct_arith(e, Seq::empty(), Seq::empty(), st);
    match eval_expr(e, Seq::empty()) {
        Ok(q) => {
            assert(Seq::<i64>::empty().push(q.0) =~= seq![q.0]);
        },
        Err(_) => {},
    }
}

/// A machine value of the target format: the narrow 32-bit width of
/// comparison results and branch tests, or the uniform 64-bit working
/// width.
pub enum WVal {
    I32(u32),
    I64(i64),
}

/// State of the target-format machine: a typed operand stack, and the
/// 64-bit storage bound to materialized indices.
#[verifier::ext_equal]
pub struct WState {
    pub stack: Seq<WVal>,
    pub locals: Map<int, i64>,
}

/// Storage that was never written reads as zero.
pub open spec fn wlocal_read(locals: Map<int, i64>, k: int) -> i64 {
    if locals.dom().contains(k) {
        locals[k]
    } else {
        0
    }
}

/// What one arithmetic machine instruction computes; `None` is a trap.
pub open spec fn wasm_apply(w: WasmS, a: i64, b: i64) -> Option<i64> {
    match w {
        WasmS::I64Add => Some(a.wrapping_add(b)),
        WasmS::I64Sub => Some(a.wrapping_sub(b)),
        WasmS::I64Mul => Some(a.wrapping_mul(b)),
        WasmS::I64DivS => a.checked_div(b),
        WasmS::I64RemS => if b == -1 {
            if a == i64::MIN {
                Some(0)
            } else {
                a.checked_rem(b)
            }
        } else {
            a.checked_rem(b)
        },
        _ => None,
    }
}

/// What one comparison machine instruction leaves natively: its 32-bit
/// boolean-like result.
pub open spec fn wasm_compare(w: WasmS, a: i64, b: i64) -> u32 {
    match w {
        WasmS::I64Eq => if a == b {
            1
        } else {
            0
        },
        WasmS::I64Ne => if a != b {
            1
        } else {
            0
        },
        WasmS::I64LtS => if a < b {
            1
        } else {
            0
        },
        WasmS::I64LeS => if a <= b {
            1
        } else {
            0
        },
        WasmS::I64GtS => if a > b {
            1
        } else {
            0
        },
        WasmS::I64GeS => if a >= b {
            1
        } else {
            0
        },
        _ => 0,
    }
}

/// One instruction of the target-format machine. The stack is typed:
/// comparisons consume two 64-bit values and leave a 32-bit result, the
/// widening conversion turns a 32-bit value back into a 64-bit one by zero
/// extension, the narrowing conversion wraps a 64-bit value to 32 bits, and
/// a conditional consumes a 32-bit test. `None` is a trap, an underflow, a
/// width mismatch, or a nested body that does not leave exactly one 64-bit
/// value — everything the target format's validation refuses.
pub open spec fn wrun_op(w: WasmS, st: WState) -> Option<WState>
    decreases w,
{
    match w {
        WasmS::I64Const(n) => Some(
            WState { stack: st.stack.push(WVal::I64(n)), locals: st.locals },
        ),
        WasmS::I64ExtendUI32 => if st.stack.len() < 1 {
            None
        } else {
            match st.stack.last() {
                WVal::I32(v) => Some(
                    WState {
                        stack: st.stack.drop_last().push(WVal::I64(v as i64)),
                        locals: st.locals,
                    },
                ),
                _ => None,
            }
        },
        WasmS::I32WrapI64 => if st.stack.len() < 1 {
            None
        } else {
            match st.stack.last() {
                WVal::I64(v) => Some(
                    WState {
                        stack: st.stack.drop_last().push(WVal::I32(v as u32)),
                        locals: st.locals,
                    },
                ),
                _ => None,
            }
        },
        WasmS::LocalGet(i) => Some(
            WState {
                stack: st.stack.push(WVal::I64(wlocal_read(st.locals, i))),
                locals: st.locals,
            },
        ),
        WasmS::LocalSet(i) => if st.stack.len() < 1 {
            None
        } else {
            match st.stack.last() {
                WVal::I64(v) => Some(
                    WState { stack: st.stack.drop_last(), locals: st.locals.insert(i, v) },
                ),
                _ => None,
            }
        },
        WasmS::LocalTee(i) => if st.stack.len() < 1 {
            None
        } else {
            match st.stack.last() {
                WVal::I64(v) => Some(WState { stack: st.stack, locals: st.locals.insert(i, v) }),
                _ => None,
            }
        },
        WasmS::Block(c) => match wrun_seq(c, WState { stack: Seq::empty(), locals: st.locals }) {
            Some(st2) => if st2.stack.len() == 1 && st2.stack[0] is I64 {
                Some(
                    WState { stack: st.stack.push(st2.stack[0]), locals: st2.locals },
                )
            } else {
                None
            },
            None => None,
        },
        WasmS::IfElse(tc, ec) => if st.stack.len() < 1 {
            None
        } else {
            match st.stack.last() {
                WVal::I32(c) => {
                    let body = if c != 0 {
                        tc
                    } else {
                        ec
                    };
                    match wrun_seq(body, WState { stack: Seq::empty(), locals: st.locals }) {
                        Some(st2) => if st2.stack.len() == 1 && st2.stack[0] is I64 {
                            Some(
                                WState {
                                    stack: st.stack.drop_last().push(st2.stack[0]),
                                    locals: st2.locals,
                                },
                            )
                        } else {
                            None
                        },
                        None => None,
                    }
                },
                _ => None,
            }
        },
        WasmS::I64Eq | WasmS::I64Ne | WasmS::I64LtS | WasmS::I64LeS | WasmS::I64GtS
            | WasmS::I64GeS => if st.stack.len() < 2 {
            None
        } else {
            match (st.stack[st.stack.len() - 2], st.stack.last()) {
                (WVal::I64(a), WVal::I64(b)) => Some(
                    WState {
                        stack: st.stack.drop_last().drop_last().push(
                            WVal::I32(wasm_compare(w, a, b)),
                        ),
                        locals: st.locals,
                    },
                ),
                _ => None,
            }
        },
        _ => {
            if st.stack.len() < 2 {
                None
            } else {
                match (st.stack[st.stack.len() - 2], st.stack.last()) {
                    (WVal::I64(a), WVal::I64(b)) => match wasm_apply(w, a, b) {
                        Some(v) => Some(
                            WState {
                                stack: st.stack.drop_last().drop_last().push(WVal::I64(v)),
                                locals: st.locals,
                            },
                        ),
                        None => None,
                    },
                    _ => None,
                }
            }
        },
    }
}

/// Running a machine instruction sequence, left to right.
pub open spec fn wrun_seq(s: Seq<WasmS>, st: WState) -> Option<WState>
    decreases s,
{
    if s.len() == 0 {
        Some(st)
    } else {
        match wrun_op(s.first(), st) {
            Some(st1) => wrun_seq(s.drop_first(), st1),
            None => None,
        }
    }
}

pub proof fn lemma_wrun_seq_concat(a: Seq<WasmS>, b: Seq<WasmS>, st: WState)
    ensures
        wrun_seq(a + b, st) == (match wrun_seq(a, st) {
            Some(st1) => wrun_seq(b, st1),
            None => None,
        }),
    decreases a,
{
    if a.len() == 0 {
        assert(a + b =~= b);
    } else {
        assert((a + b).first() == a.first());
        assert((a + b).drop_first() =~= a.drop_first() + b);
        match wrun_op(a.first(), st) {
            Some(st1) => lemma_wrun_seq_concat(a.drop_first(), b, st1),
            None => {},
        }
    }
}

pub proof fn lemma_wrun_single(w: WasmS, st: WState)
    ensures
        wrun_seq(seq![w], st) == wrun_op(w, st),
{
    assert(seq![w].first() == w);
    assert(seq![w].drop_first() =~= Seq::<WasmS>::empty());
    match wrun_op(w, st) {
        Some(st1) => {
            assert(wrun_seq(Seq::<WasmS>::empty(), st1) == Some(st1));
            assert(wrun_seq(seq![w].drop_first(), st1) == Some(st1));
        },
        None => {},
    }
}

/// The 64-bit operand stack, as the typed machine sees it.
pub open spec fn wstack_of(s: Seq<i64>) -> Seq<WVal> {
    s.map_values(|v: i64| WVal::I64(v))
}

proof fn lemma_wstack_push(s: Seq<i64>, v: i64)
    ensures
        wstack_of(s.push(v)) =~= wstack_of(s).push(WVal::I64(v)),
{
}

proof fn lemma_wstack_drop_last(s: Seq<i64>)
    requires
        s.len() > 0,
    ensures
        wstack_of(s).drop_last() =~= wstack_of(s.drop_last()),
{
}

/// Instructions that touch no local slot.
pub open spec fn mir_no_locals(m: MirS) -> bool
    decreases m,
{
    match m {
        MirS::LocalGet(_) => false,
        MirS::LocalSet(_) => false,
        MirS::LocalTee(_) => false,
        MirS::Block(c) => mirs_no_locals(c),
        MirS::IfElse(tc, el) => mirs_no_locals(tc) && (match el {
            Some(ec) => mirs_no_locals(ec),
            None => true,
        }),
        _ => true,
    }
}

pub open spec fn mirs_no_locals(s: Seq<MirS>) -> bool
    decreases s,
{
    s.len() == 0 || (mir_no_locals(s.first()) && mirs_no_locals(s.drop_first()))
}

/// The code generator preserves meaning, one instruction at a time, on
/// slot-free code: the emitted machine instructions step the typed machine
/// exactly as the IR instruction steps the IR machine — in particular, the
/// widened comparisons and the narrowed branch tests change nothing — and
/// they trap exactly when the IR instruction traps.
pub proof fn lemma_emit_preserves_op(m: MirS, mat: MatTable, stack: Seq<i64>, ml: Map<u32, i64>, wl: Map<int, i64>)
    requires
        mir_no_locals(m),
    ensures
        emit_op(m, mat) matches Ok(p) ==> p.1 == mat && (match mrun_op(
            m,
            MState { stack, locals: ml },
        ) {
            Some(st2) => st2.locals == ml && wrun_seq(p.0, WState { stack: wstack_of(stack), locals: wl })
                == Some(WState { stack: wstack_of(st2.stack), locals: wl }),
            None => wrun_seq(p.0, WState { stack: wstack_of(stack), locals: wl }) is None,
        }),
    decreases m,
{
    let wst = WState { stack: wstack_of(stack), locals: wl };
    assert(wstack_of(stack).len() == stack.len());
    lemma_emit_no_locals_mat_op(m, mat);
    match m {
        MirS::ConstI64(n) => {
            lemma_wrun_single(WasmS::I64Const(n), wst);
            lemma_wstack_push(stack, n);
        },
        MirS::AddI64 | MirS::SubI64 | MirS::MulI64 | MirS::DivI64 | MirS::ModI64 => {
            let w = match m {
                MirS::AddI64 => WasmS::I64Add,
                MirS::SubI64 => WasmS::I64Sub,
                MirS::MulI64 => WasmS::I64Mul,
                MirS::DivI64 => WasmS::I64DivS,
                _ => WasmS::I64RemS,
            };
            lemma_wrun_single(w, wst);
            if stack.len() >= 2 {
                let b = stack.last();
                let a = stack[stack.len() - 2];
                assert(wstack_of(stack).last() == WVal::I64(b));
                assert(wstack_of(stack)[stack.len() - 2] == WVal::I64(a));
                assert(wasm_apply(w, a, b) == mir_apply(m, a, b));
                match mir_apply(m, a, b) {
                    Some(v) => {
                        lemma_wstack_drop_last(stack);
                        lemma_wstack_drop_last(stack.drop_last());
                        lemma_wstack_push(stack.drop_last().drop_last(), v);
                    },
                    None => {},
                }
            }
        },
        MirS::GreaterThanI64 | MirS::LessThanI64 | MirS::EqualI64 | MirS::NotEqualI64
            | MirS::GreaterThanOrEqualI64 | MirS::LessThanOrEqualI64 => {
            let w = match m {
                MirS::GreaterThanI64 => WasmS::I64GtS,
                MirS::LessThanI64 => WasmS::I64LtS,
                MirS::EqualI64 => WasmS::I64Eq,
                MirS::NotEqualI64 => WasmS::I64Ne,
                MirS::GreaterThanOrEqualI64 => WasmS::I64GeS,
                _ => WasmS::I64LeS,
            };
            let pair = seq![w, WasmS::I64ExtendUI32];
            assert(pair.first() == w);
            assert(pair.drop_first() =~= seq![WasmS::I64ExtendUI32]);
            if stack.len() >= 2 {
                let b = stack.last();
                let a = stack[stack.len() - 2];
                assert(wstack_of(stack).last() == WVal::I64(b));
                assert(wstack_of(stack)[stack.len() - 2] == WVal::I64(a));
                let r32 = wasm_compare(w, a, b);
                let mid = WState {
                    stack: wstack_of(stack).drop_last().drop_last().push(WVal::I32(r32)),
                    locals: wl,
                };
                assert(wrun_op(w, wst) == Some(mid));
                lemma_wrun_single(WasmS::I64ExtendUI32, mid);
                assert(wrun_seq(pair, wst) == wrun_op(WasmS::I64ExtendUI32, mid));
                assert(mid.stack.last() == WVal::I32(r32));
                let v64 = r32 as i64;
                assert(mir_apply(m, a, b) == Some(v64));
                lemma_wstack_drop_last(stack);
                lemma_wstack_drop_last(stack.drop_last());
                lemma_wstack_push(stack.drop_last().drop_last(), v64);
                assert(mid.stack.drop_last() =~= wstack_of(stack).drop_last().drop_last());
            } else {
                assert(wrun_op(w, wst) is None);
            }
        },
        MirS::Block(ops) => {
            match emit_seq(ops, mat) {
                Ok(p1) => {
                    lemma_emit_preserves_seq(ops, mat, Seq::empty(), ml, wl);
                    assert(wstack_of(Seq::<i64>::empty()) =~= Seq::<WVal>::empty());
                    let wb = WasmS::Block(p1.0);
                    lemma_wrun_single(wb, wst);
                    match mrun_seq(ops, MState { stack: Seq::empty(), locals: ml }) {
                        Some(st2) => {
                            lemma_mrun_no_locals_seq(ops, MState { stack: Seq::empty(), locals: ml });
                            if st2.stack.len() == 1 {
                                assert(wstack_of(st2.stack).len() == 1);
                                assert(wstack_of(st2.stack)[0] == WVal::I64(st2.stack[0]));
                                lemma_wstack_push(stack, st2.stack[0]);
                            } else {
                                assert(wstack_of(st2.stack).len() != 1);
                            }
                        },
                        None => {},
                    }
                },
                Err(_) => {},
            }
        },
        MirS::IfElse(tc, el) => {
            match el {
                Some(ec) => {
                    match emit_seq(tc, mat) {
                        Ok(p1) => {
                            match emit_seq(ec, p1.1) {
                                Ok(p2) => {
                                    lemma_emit_no_locals_mat_seq(tc, mat);
                                    assert(p1.1 == mat);
                                    lemma_emit_no_locals_mat_seq(ec, mat);
                                    let wif = WasmS::IfElse(p1.0, p2.0);
                                    let pair = seq![WasmS::I32WrapI64, wif];
                                    assert(pair.first() == WasmS::I32WrapI64);
                                    assert(pair.drop_first() =~= seq![wif]);
                                    if stack.len() >= 1 {
                                        let c = stack.last();
                                        assert(wstack_of(stack).last() == WVal::I64(c));
                                        let mid = WState {
                                            stack: wstack_of(stack).drop_last().push(
                                                WVal::I32(c as u32),
                                            ),
                                            locals: wl,
                                        };
                                        assert(wrun_op(WasmS::I32WrapI64, wst) == Some(mid));
                                        lemma_wrun_single(wif, mid);
                                        assert(wrun_seq(pair, wst) == wrun_op(wif, mid));
                                        assert(mid.stack.last() == WVal::I32(c as u32));
                                        assert((c as u32 != 0) == truthy(c));
                                        let mbody = if truthy(c) {
                                            tc
                                        } else {
                                            ec
                                        };
                                        let wbody = if truthy(c) {
                                            p1.0
                                        } else {
                                            p2.0
                                        };
                                        if truthy(c) {
                                            lemma_emit_preserves_seq(tc, mat, Seq::empty(), ml, wl);
                                        } else {
                                            lemma_emit_preserves_seq(ec, mat, Seq::empty(), ml, wl);
                                        }
                                        assert(wstack_of(Seq::<i64>::empty()) =~= Seq::<
                                            WVal,
                                        >::empty());
                                        match mrun_seq(
                                            mbody,
                                            MState { stack: Seq::empty(), locals: ml },
                                        ) {
                                            Some(st2) => {
                                                lemma_mrun_no_locals_seq(
                                                    mbody,
                                                    MState { stack: Seq::empty(), locals: ml },
                                                );
                                                if st2.stack.len() == 1 {
                                                    assert(wstack_of(st2.stack)[0] == WVal::I64(
                                                        st2.stack[0],
                                                    ));
                                                    lemma_wstack_drop_last(stack);
                                                    lemma_wstack_push(
                                                        stack.drop_last(),
                                                        st2.stack[0],
                                                    );
                                                    assert(mid.stack.drop_last() =~= wstack_of(
                                                        stack,
                                                    ).drop_last());
                                                } else {
                                                    assert(wstack_of(st2.stack).len() != 1);
                                                }
                                            },
                                            None => {},
                                        }
                                    }
                                },
                                Err(_) => {},
                            }
                        },
                        Err(_) => {},
                    }
                },
                None => {},
            }
        },
        _ => {},
    }
}

/// Emission of slot-free code binds no storage: the table is unchanged.
proof fn lemma_emit_no_locals_mat_op(m: MirS, mat: MatTable)
    requires
        mir_no_locals(m),
    ensures
        emit_op(m, mat) matches Ok(p) ==> p.1 == mat,
    decreases m,
{
    match m {
        MirS::Block(ops) => lemma_emit_no_locals_mat_seq(ops, mat),
        MirS::IfElse(tc, el) => match el {
            Some(ec) => {
                lemma_emit_no_locals_mat_seq(tc, mat);
                match emit_seq(tc, mat) {
                    Ok(p1) => lemma_emit_no_locals_mat_seq(ec, p1.1),
                    Err(_) => {},
                }
            },
            None => {},
        },
        _ => {},
    }
}

proof fn lemma_emit_no_locals_mat_seq(s: Seq<MirS>, mat: MatTable)
    requires
        mirs_no_locals(s),
    ensures
        emit_seq(s, mat) matches Ok(p) ==> p.1 == mat,
    decreases s,
{
    if s.len() > 0 {
        lemma_emit_no_locals_mat_op(s.first(), mat);
        match emit_op(s.first(), mat) {
            Ok(p1) => lemma_emit_no_locals_mat_seq(s.drop_first(), p1.1),
            Err(_) => {},
        }
    }
}

/// Slot-free code never changes the local store of the IR machine.
pub proof fn lemma_mrun_no_locals_op(m: MirS, st: MState)
    requires
        mir_no_locals(m),
    ensures
        mrun_op(m, st) matches Some(st2) ==> st2.locals == st.locals,
    decreases m,
{
    match m {
        MirS::Block(ops) => {
            lemma_mrun_no_locals_seq(ops, MState { stack: Seq::empty(), locals: st.locals });
        },
        MirS::IfElse(tc, el) => match el {
            Some(ec) => {
                if st.stack.len() >= 1 {
                    let empty_st = MState { stack: Seq::empty(), locals: st.locals };
                    if truthy(st.stack.last()) {
                        lemma_mrun_no_locals_seq(tc, empty_st);
                    } else {
                        lemma_mrun_no_locals_seq(ec, empty_st);
                    }
                }
            },
            None => {},
        },
        _ => {},
    }
}

pub proof fn lemma_mrun_no_locals_seq(s: Seq<MirS>, st: MState)
    requires
        mirs_no_locals(s),
    ensures
        mrun_seq(s, st) matches Some(st2) ==> st2.locals == st.locals,
    decreases s,
{
    if s.len() > 0 {
        lemma_mrun_no_locals_op(s.first(), st);
        match mrun_op(s.first(), st) {
            Some(st1) => lemma_mrun_no_locals_seq(s.drop_first(), st1),
            None => {},
        }
    }
}

/// As `lemma_emit_preserves_op`, for a whole sequence.
pub proof fn lemma_emit_preserves_seq(s: Seq<MirS>, mat: MatTable, stack: Seq<i64>, ml: Map<u32, i64>, wl: Map<int, i64>)
    requires
        mirs_no_locals(s),
    ensures
        emit_seq(s, mat) matches Ok(p) ==> p.1 == mat && (match mrun_seq(
            s,
            MState { stack, locals: ml },
        ) {
            Some(st2) => st2.locals == ml && wrun_seq(p.0, WState { stack: wstack_of(stack), locals: wl })
                == Some(WState { stack: wstack_of(st2.stack), locals: wl }),
            None => wrun_seq(p.0, WState { stack: wstack_of(stack), locals: wl }) is None,
        }),
    decreases s,
{
    lemma_emit_no_locals_mat_seq(s, mat);
    if s.len() > 0 {
        lemma_emit_preserves_op(s.first(), mat, stack, ml, wl);
        match emit_op(s.first(), mat) {
            Ok(p1) => {
                match mrun_op(s.first(), MState { stack, locals: ml }) {
                    Some(st1) => {
                        lemma_mrun_no_locals_op(s.first(), MState { stack, locals: ml });
                        lemma_emit_preserves_seq(s.drop_first(), p1.1, st1.stack, ml, wl);
                        match emit_seq(s.drop_first(), p1.1) {
                            Ok(p2) => {
                                lemma_wrun_seq_concat(
                                    p1.0,
                                    p2.0,
                                    WState { stack: wstack_of(stack), locals: wl },
                                );
                            },
                            Err(_) => {},
                        }
                    },
                    None => {
                        match emit_seq(s.drop_first(), p1.1) {
                            Ok(p2) => {
                                lemma_wrun_seq_concat(
                                    p1.0,
                                    p2.0,
                                    WState { stack: wstack_of(stack), locals: wl },
                                );
                            },
                            Err(_) => {},
                        }
                    },
                }
            },
            Err(_) => {},
        }
    }
}

/// The whole pipeline, held together on the arithmetic fragment: lowering
/// an arithmetic-only expression and feeding the emitted machine code to
/// the typed target machine computes exactly the reference evaluator's
/// value, and traps exactly when the evaluator traps.
pub proof fn lemma_pipeline_round_trip_arith(e: Expr)
    requires
        arith_only(e),
    ensures
        lower_program(e) matches Ok(c) ==> (emit_program(c) matches Ok(p) ==> (match eval_program(
            e,
        ) {
            Ok(v) => wrun_seq(p.0, WState { stack: Seq::empty(), locals: Map::empty() }) == Some(
                WState { stack: seq![WVal::I64(v)], locals: Map::empty() },
            ),
            Err(er) => er == EvalError::Trap && wrun_seq(
                p.0,
                WState { stack: Seq::empty(), locals: Map::empty() },
            ) is None,
        })),
{
    lemma_round_trip_arith(e);
    match lower_program(e) {
        Ok(c) => {
            lemma_arith_lower_no_locals(e);
            lemma_emit_preserves_seq(c, Seq::empty(), Seq::empty(), Map::empty(), Map::empty());
            assert(wstack_of(Seq::<i64>::empty()) =~= Seq::<WVal>::empty());
            match eval_program(e) {
                Ok(v) => {
                    assert(wstack_of(seq![v]) =~= seq![WVal::I64(v)]);
                },
                Err(_) => {},
            }
        },
        Err(_) => {},
    }
}

/// Whatever the IR machine computes of a slot-free program, the emitted
/// machine code computes too: run from an empty stack, both end in the
/// same values, and both trap together.
pub proof fn lemma_emit_preserves_program(code: Seq<MirS>)
    requires
        mirs_no_locals(code),
    ensures
        emit_program(code) matches Ok(p) ==> (match mrun_seq(
            code,
            MState { stack: Seq::empty(), locals: Map::empty() },
        ) {
            Some(st2) => wrun_seq(p.0, WState { stack: Seq::empty(), locals: Map::empty() })
                == Some(WState { stack: wstack_of(st2.stack), locals: Map::empty() }),
            None => wrun_seq(
                p.0,
                WState { stack: Seq::empty(), locals: Map::empty() },
            ) is None,
        }),
{
    lemma_emit_preserves_seq(code, Seq::empty(), Seq::empty(), Map::empty(), Map::empty());
    assert(wstack_of(Seq::<i64>::empty()) =~= Seq::<WVal>::empty());
}

/// What the emitted module computes of a conditional over arithmetic-only
/// parts: see `lemma_pipeline_conditional_selects`.
pub open spec fn pipeline_selects(c: Expr, th: Expr, eb: Expr, e: Expr) -> bool {
    lower_program(e) matches Ok(code) ==> (emit_program(code) matches Ok(p) ==> (match eval_expr(
        c,
        Seq::empty(),
    ) {
        Ok(qc) => (match eval_expr(
            if truthy(qc.0) {
                th
            } else {
                eb
            },
            Seq::empty(),
        ) {
            Ok(qb) => wrun_seq(p.0, WState { stack: Seq::empty(), locals: Map::empty() }) == Some(
                WState { stack: seq![WVal::I64(qb.0)], locals: Map::empty() },
            ),
            Err(er) => er == EvalError::Trap && wrun_seq(
                p.0,
                WState { stack: Seq::empty(), locals: Map::empty() },
            ) is None,
        }),
        Err(er) => er == EvalError::Trap && wrun_seq(
            p.0,
            WState { stack: Seq::empty(), locals: Map::empty() },
        ) is None,
    }))
}

/// The emitted module of a conditional over arithmetic-only parts executes
/// only the selected branch: a condition that is non-zero after narrowing
/// leaves exactly the "then" branch's value, a zero one exactly the "else"
/// branch's value; a trap in the condition or the selected branch — and in
/// no other part — traps the module.
pub proof fn lemma_pipeline_conditional_selects(e: Expr)
    ensures
        e matches Expr::IfElse(c, th, el) ==> (el matches Some(eb) ==> (arith_only(*c)
            && arith_only(*th) && arith_only(*eb) ==> pipeline_selects(*c, *th, *eb, e))),
{
    match e {
        Expr::IfElse(c, th, el) => {
            match el {
                Some(eb) => {
                    if arith_only(*c) && arith_only(*th) && arith_only(*eb) {
                        let st0 = MState { stack: Seq::empty(), locals: Map::empty() };
                        lemma_conditional_selects_branch(e, Seq::empty(), Seq::empty(), st0);
                        // arithmetic-only parts leave the slot table empty
                        lemma_compile_correct_arith(*c, Seq::empty(), Seq::empty(), st0);
                        lemma_compile_correct_arith(*th, Seq::empty(), Seq::empty(), st0);
                        lemma_compile_correct_arith(*eb, Seq::empty(), Seq::empty(), st0);
                        match lower_expr(e, Seq::empty()) {
                            Ok(pp) => {
                                // the lowered conditional is slot-free
                                lemma_arith_lower_no_locals_rec(*c, Seq::empty());
                                match lower_expr(*c, Seq::empty()) {
                                    Ok(pc) => {
                                        lemma_arith_lower_no_locals_rec(*th, Seq::empty());
                                        lemma_arith_lower_no_locals_rec(*eb, Seq::empty());
                                        match (lower_expr(*th, Seq::empty()), lower_expr(
                                            *eb,
                                            Seq::empty(),
                                        )) {
                                            (Ok(pt), Ok(pe)) => {
                                                let ifop = MirS::IfElse(pt.0, Some(pe.0));
                                                lemma_no_locals_singleton(ifop);
                                                lemma_no_locals_concat(pc.0, seq![ifop]);
                                                assert(pp.0 =~= pc.0.push(ifop));
                                                assert(pc.0.push(ifop) =~= pc.0 + seq![ifop]);
                                                lemma_emit_preserves_program(pp.0);
                                                match eval_expr(*c, Seq::empty()) {
                                                    Ok(qc) => {
                                                        let taken = if truthy(qc.0) {
                                                            *th
                                                        } else {
                                                            *eb
                                                        };
                                                        match eval_expr(taken, Seq::empty()) {
                                                            Ok(qb) => {
                                                                assert(wstack_of(
                                                                    Seq::<i64>::empty().push(qb.0),
                                                                ) =~= seq![WVal::I64(qb.0)]);
                                                            },
                                                            Err(_) => {},
                                                        }
                                                    },
                                                    Err(_) => {},
                                                }
                                            },
                                            _ => {},
                                        }
                                    },
                                    Err(_) => {},
                                }
                            },
                            Err(_) => {},
                        }
                    }
                },
                None => {},
            }
        },
        _ => {},
    }
}

/// Lowered arithmetic-only code touches no local slot.
proof fn lemma_arith_lower_no_locals(e: Expr)
    requires
        arith_only(e),
    ensures
        lower_program(e) matches Ok(c) ==> mirs_no_locals(c),
{
    lemma_arith_lower_no_locals_rec(e, Seq::empty());
}

proof fn lemma_arith_lower_no_locals_rec(e: Expr, t: SlotTable)
    requires
        arith_only(e),
    ensures
        lower_expr(e, t) matches Ok(p) ==> mirs_no_locals(p.0),
    decreases e,
{
    match e {
        Expr::Constant(a) => {
            match a {
                Atom::Num(n) => {
                    lemma_no_locals_singleton(MirS::ConstI64(n));
                },
                Atom::Boolean(b) => {
                    lemma_no_locals_singleton(
                        MirS::ConstI64(
                            if b {
                                1
                            } else {
                                0
                            },
                        ),
                    );
                },
                _ => {},
            }
        },
        Expr::BinaryOp(l, op, r) => {
            lemma_arith_lower_no_locals_rec(*l, t);
            match lower_expr(*l, t) {
                Ok(pl) => {
                    lemma_arith_lower_no_locals_rec(*r, pl.1);
                    match lower_expr(*r, pl.1) {
                        Ok(pr) => {
                            match binop_mir(op) {
                                Some(mi) => {
                                    lemma_no_locals_singleton(mi);
                                    lemma_no_locals_concat(pl.0, pr.0);
                                    lemma_no_locals_concat(pl.0 + pr.0, seq![mi]);
                                },
                                None => {},
                            }
                        },
                        Err(_) => {},
                    }
                },
                Err(_) => {},
            }
        },
        Expr::UnaryOp(op, inner) => {
            lemma_arith_lower_no_locals_rec(*inner, t);
            match lower_expr(*inner, t) {
                Ok(pi) => {
                    lemma_no_locals_singleton(MirS::ConstI64(0));
                    lemma_no_locals_singleton(MirS::SubI64);
                    lemma_no_locals_concat(seq![MirS::ConstI64(0)], pi.0);
                    lemma_no_locals_concat(seq![MirS::ConstI64(0)] + pi.0, seq![MirS::SubI64]);
                },
                Err(_) => {},
            }
        },
        _ => {},
    }
}

proof fn lemma_no_locals_singleton(m: MirS)
    requires
        mir_no_locals(m),
    ensures
        mirs_no_locals(seq![m]),
{
    assert(seq![m].first() == m);
    assert(seq![m].drop_first() =~= Seq::<MirS>::empty());
    assert(mirs_no_locals(seq![m].drop_first()));
}

proof fn lemma_no_locals_concat(a: Seq<MirS>, b: Seq<MirS>)
    requires
        mirs_no_locals(a),
        mirs_no_locals(b),
    ensures
        mirs_no_locals(a + b),
    decreases a,
{
    if a.len() == 0 {
        assert(a + b =~= b);
    } else {
        assert((a + b).first() == a.first());
        assert((a + b).drop_first() =~= a.drop_first() + b);
        lemma_no_locals_concat(a.drop_first(), b);
    }
}

/// Correspondence between the IR machine's logical store and the target
/// machine's storage, through the materialization table: a materialized
/// slot reads the same value at its storage index, a slot never
/// materialized reads zero, and storage beyond the table reads zero.
pub open spec fn locals_correspond(mat: MatTable, ml: Map<u32, i64>, wl: Map<int, i64>) -> bool {
    &&& (forall|j: int|
        0 <= j < mat.len() ==> #[trigger] wlocal_read(wl, j) == local_read(ml, mat[j]))
    &&& (forall|k: u32| !mat.contains(k) ==> #[trigger] local_read(ml, k) == 0)
    &&& (forall|j: int| j >= mat.len() ==> #[trigger] wlocal_read(wl, j) == 0)
}

/// The correspondence survives growing the table by fresh slots: both
/// sides read zero there.
proof fn lemma_correspond_extend(
    mat: MatTable,
    mat2: MatTable,
    ml: Map<u32, i64>,
    wl: Map<int, i64>,
)
    requires
        mat2.no_duplicates(),
        mat2.len() >= mat.len(),
        mat2.take(mat.len() as int) == mat,
        locals_correspond(mat, ml, wl),
    ensures
        locals_correspond(mat2, ml, wl),
{
    assert forall|j: int| 0 <= j < mat2.len() implies #[trigger] wlocal_read(wl, j) == local_read(
        ml,
        mat2[j],
    ) by {
        if j < mat.len() {
            assert(mat2.take(mat.len() as int)[j] == mat[j]);
        } else {
            assert(!mat.contains(mat2[j])) by {
                if mat.contains(mat2[j]) {
                    let i = choose|i: int| 0 <= i < mat.len() && mat[i] == mat2[j];
                    assert(mat2.take(mat.len() as int)[i] == mat[i]);
                    assert(mat2[i] == mat2[j]);
                }
            }
            assert(local_read(ml, mat2[j]) == 0);
        }
    }
    assert forall|k: u32| !mat2.contains(k) implies #[trigger] local_read(ml, k) == 0 by {
        assert(!mat.contains(k)) by {
            if mat.contains(k) {
                let i = choose|i: int| 0 <= i < mat.len() && mat[i] == k;
                assert(mat2.take(mat.len() as int)[i] == mat[i]);
                assert(mat2.contains(k));
            }
        }
    }
}

/// A witness for the simulation: the emitted code steps the target machine
/// to this storage, corresponding to the IR machine's store.
pub open spec fn sim_witness(
    code: Seq<WasmS>,
    st: WState,
    stack2: Seq<i64>,
    mat2: MatTable,
    ml2: Map<u32, i64>,
    wl2: Map<int, i64>,
) -> bool {
    wrun_seq(code, st) == Some(WState { stack: wstack_of(stack2), locals: wl2 })
        && locals_correspond(mat2, ml2, wl2)
}

/// The emitted code runs to the renamed image of the IR machine's state.
pub open spec fn sim_runs(
    code: Seq<WasmS>,
    st: WState,
    stack2: Seq<i64>,
    mat2: MatTable,
    ml2: Map<u32, i64>,
) -> bool {
    exists|wl2: Map<int, i64>| sim_witness(code, st, stack2, mat2, ml2, wl2)
}

/// The renaming simulation, one instruction at a time: on any IR
/// instruction — local slots included — the emitted machine code steps the
/// typed target machine exactly as the instruction steps the IR machine,
/// reading and writing storage through the renaming of logical slots to
/// storage indices that the materialization table records, and trapping
/// exactly when the IR machine traps.
pub proof fn lemma_emit_simulates_op(
    m: MirS,
    mat: MatTable,
    stack: Seq<i64>,
    ml: Map<u32, i64>,
    wl: Map<int, i64>,
)
    requires
        mat.no_duplicates(),
        locals_correspond(mat, ml, wl),
    ensures
        emit_op(m, mat) matches Ok(p) ==> (match mrun_op(m, MState { stack, locals: ml }) {
            Some(st2) => sim_runs(
                p.0,
                WState { stack: wstack_of(stack), locals: wl },
                st2.stack,
                p.1,
                st2.locals,
            ),
            None => wrun_seq(p.0, WState { stack: wstack_of(stack), locals: wl }) is None,
        }),
    decreases m,
{
    let wst = WState { stack: wstack_of(stack), locals: wl };
    assert(wstack_of(stack).len() == stack.len());
    crate::emit::lemma_emit_op_mat_nodup(m, mat);
    match m {
        MirS::ConstI64(n) => {
            lemma_wrun_single(WasmS::I64Const(n), wst);
            lemma_wstack_push(stack, n);
            assert(sim_witness(
                seq![WasmS::I64Const(n)],
                wst,
                stack.push(n),
                mat,
                ml,
                wl,
            ));
        },
        MirS::AddI64 | MirS::SubI64 | MirS::MulI64 | MirS::DivI64 | MirS::ModI64 => {
            let w = match m {
                MirS::AddI64 => WasmS::I64Add,
                MirS::SubI64 => WasmS::I64Sub,
                MirS::MulI64 => WasmS::I64Mul,
                MirS::DivI64 => WasmS::I64DivS,
                _ => WasmS::I64RemS,
            };
            lemma_wrun_single(w, wst);
            if stack.len() >= 2 {
                let b = stack.last();
                let a = stack[stack.len() - 2];
                assert(wstack_of(stack).last() == WVal::I64(b));
                assert(wstack_of(stack)[stack.len() - 2] == WVal::I64(a));
                assert(wasm_apply(w, a, b) == mir_apply(m, a, b));
                match mir_apply(m, a, b) {
                    Some(v) => {
                        lemma_wstack_drop_last(stack);
                        lemma_wstack_drop_last(stack.drop_last());
                        lemma_wstack_push(stack.drop_last().drop_last(), v);
                        assert(sim_witness(
                            seq![w],
                            wst,
                            stack.drop_last().drop_last().push(v),
                            mat,
                            ml,
                            wl,
                        ));
                    },
                    None => {},
                }
            }
        },
        MirS::GreaterThanI64 | MirS::LessThanI64 | MirS::EqualI64 | MirS::NotEqualI64
            | MirS::GreaterThanOrEqualI64 | MirS::LessThanOrEqualI64 => {
            let w = match m {
                MirS::GreaterThanI64 => WasmS::I64GtS,
                MirS::LessThanI64 => WasmS::I64LtS,
                MirS::EqualI64 => WasmS::I64Eq,
                MirS::NotEqualI64 => WasmS::I64Ne,
                MirS::GreaterThanOrEqualI64 => WasmS::I64GeS,
                _ => WasmS::I64LeS,
            };
            let pair = seq![w, WasmS::I64ExtendUI32];
            assert(pair.first() == w);
            assert(pair.drop_first() =~= seq![WasmS::I64ExtendUI32]);
            if stack.len() >= 2 {
                let b = stack.last();
                let a = stack[stack.len() - 2];
                assert(wstack_of(stack).last() == WVal::I64(b));
                assert(wstack_of(stack)[stack.len() - 2] == WVal::I64(a));
                let r32 = wasm_compare(w, a, b);
                let mid = WState {
                    stack: wstack_of(stack).drop_last().drop_last().push(WVal::I32(r32)),
                    locals: wl,
                };
                assert(wrun_op(w, wst) == Some(mid));
                lemma_wrun_single(WasmS::I64ExtendUI32, mid);
                assert(wrun_seq(pair, wst) == wrun_op(WasmS::I64ExtendUI32, mid));
                assert(mid.stack.last() == WVal::I32(r32));
                let v64 = r32 as i64;
                assert(mir_apply(m, a, b) == Some(v64));
                lemma_wstack_drop_last(stack);
                lemma_wstack_drop_last(stack.drop_last());
                lemma_wstack_push(stack.drop_last().drop_last(), v64);
                assert(mid.stack.drop_last() =~= wstack_of(stack).drop_last().drop_last());
                assert(sim_witness(
                    pair,
                    wst,
                    stack.drop_last().drop_last().push(v64),
                    mat,
                    ml,
                    wl,
                ));
            } else {
                assert(wrun_op(w, wst) is None);
            }
        },
        MirS::LocalGet(k) => {
            let p = materialize(mat, k);
            let idx = p.1;
            let v = local_read(ml, k);
            if mat.contains(k) {
                crate::emit::lemma_mat_index_bound(mat, k);
                assert(wlocal_read(wl, idx) == local_read(ml, mat[idx]));
                assert(mat[idx] == k);
            } else {
                assert(wlocal_read(wl, idx) == 0);
                assert(local_read(ml, k) == 0);
                lemma_correspond_extend(mat, p.0, ml, wl);
            }
            lemma_wrun_single(WasmS::LocalGet(idx), wst);
            lemma_wstack_push(stack, v);
            assert(sim_witness(seq![WasmS::LocalGet(idx)], wst, stack.push(v), p.0, ml, wl));
        },
        MirS::LocalSet(k) => {
            let p = materialize(mat, k);
            let idx = p.1;
            lemma_wrun_single(WasmS::LocalSet(idx), wst);
            if stack.len() >= 1 {
                let v = stack.last();
                assert(wstack_of(stack).last() == WVal::I64(v));
                lemma_wstack_drop_last(stack);
                let ml2 = ml.insert(k, v);
                let wl2 = wl.insert(idx, v);
                lemma_correspond_insert(mat, k, v, ml, wl);
                assert(sim_witness(
                    seq![WasmS::LocalSet(idx)],
                    wst,
                    stack.drop_last(),
                    p.0,
                    ml2,
                    wl2,
                ));
            }
        },
        MirS::LocalTee(k) => {
            let p = materialize(mat, k);
            let idx = p.1;
            lemma_wrun_single(WasmS::LocalTee(idx), wst);
            if stack.len() >= 1 {
                let v = stack.last();
                assert(wstack_of(stack).last() == WVal::I64(v));
                let ml2 = ml.insert(k, v);
                let wl2 = wl.insert(idx, v);
                lemma_correspond_insert(mat, k, v, ml, wl);
                assert(sim_witness(seq![WasmS::LocalTee(idx)], wst, stack, p.0, ml2, wl2));
            }
        },
        MirS::Block(ops) => {
            match emit_seq(ops, mat) {
                Ok(p1) => {
                    lemma_emit_simulates_seq(ops, mat, Seq::empty(), ml, wl);
                    assert(wstack_of(Seq::<i64>::empty()) =~= Seq::<WVal>::empty());
                    let wb = WasmS::Block(p1.0);
                    lemma_wrun_single(wb, wst);
                    match mrun_seq(ops, MState { stack: Seq::empty(), locals: ml }) {
                        Some(st2) => {
                            let wl2 = choose|x: Map<int, i64>|
                                sim_witness(
                                    p1.0,
                                    WState { stack: Seq::empty(), locals: wl },
                                    st2.stack,
                                    p1.1,
                                    st2.locals,
                                    x,
                                );
                            if st2.stack.len() == 1 {
                                assert(wstack_of(st2.stack).len() == 1);
                                assert(wstack_of(st2.stack)[0] == WVal::I64(st2.stack[0]));
                                lemma_wstack_push(stack, st2.stack[0]);
                                assert(sim_witness(
                                    seq![wb],
                                    wst,
                                    stack.push(st2.stack[0]),
                                    p1.1,
                                    st2.locals,
                                    wl2,
                                ));
                            } else {
                                assert(wstack_of(st2.stack).len() != 1);
                            }
                        },
                        None => {},
                    }
                },
                Err(_) => {},
            }
        },
        MirS::IfElse(tc, el) => {
            match el {
                Some(ec) => {
                    match emit_seq(tc, mat) {
                        Ok(p1) => {
                            match emit_seq(ec, p1.1) {
                                Ok(p2) => {
                                    crate::emit::lemma_emit_seq_mat_nodup(tc, mat);
                                    crate::emit::lemma_emit_seq_mat_grows(tc, mat);
                                    crate::emit::lemma_emit_seq_mat_nodup(ec, p1.1);
                                    crate::emit::lemma_emit_seq_mat_grows(ec, p1.1);
                                    let wif = WasmS::IfElse(p1.0, p2.0);
                                    let pair = seq![WasmS::I32WrapI64, wif];
                                    assert(pair.first() == WasmS::I32WrapI64);
                                    assert(pair.drop_first() =~= seq![wif]);
                                    if stack.len() >= 1 {
                                        let c = stack.last();
                                        assert(wstack_of(stack).last() == WVal::I64(c));
                                        let mid = WState {
                                            stack: wstack_of(stack).drop_last().push(
                                                WVal::I32(c as u32),
                                            ),
                                            locals: wl,
                                        };
                                        assert(wrun_op(WasmS::I32WrapI64, wst) == Some(mid));
                                        lemma_wrun_single(wif, mid);
                                        assert(wrun_seq(pair, wst) == wrun_op(wif, mid));
                                        assert(mid.stack.last() == WVal::I32(c as u32));
                                        assert((c as u32 != 0) == truthy(c));
                                        let mbody = if truthy(c) {
                                            tc
                                        } else {
                                            ec
                                        };
                                        let wbody = if truthy(c) {
                                            p1.0
                                        } else {
                                            p2.0
                                        };
                                        let empty_w = WState {
                                            stack: Seq::empty(),
                                            locals: wl,
                                        };
                                        assert(wstack_of(Seq::<i64>::empty()) =~= Seq::<
                                            WVal,
                                        >::empty());
                                        if truthy(c) {
                                            lemma_emit_simulates_seq(tc, mat, Seq::empty(), ml, wl);
                                        } else {
                                            lemma_correspond_extend(mat, p1.1, ml, wl);
                                            lemma_emit_simulates_seq(
                                                ec,
                                                p1.1,
                                                Seq::empty(),
                                                ml,
                                                wl,
                                            );
                                        }
                                        match mrun_seq(
                                            mbody,
                                            MState { stack: Seq::empty(), locals: ml },
                                        ) {
                                            Some(st2) => {
                                                let bmat = if truthy(c) {
                                                    p1.1
                                                } else {
                                                    p2.1
                                                };
                                                let wl2 = choose|x: Map<int, i64>|
                                                    sim_witness(
                                                        wbody,
                                                        empty_w,
                                                        st2.stack,
                                                        bmat,
                                                        st2.locals,
                                                        x,
                                                    );
                                                if st2.stack.len() == 1 {
                                                    assert(wstack_of(st2.stack)[0] == WVal::I64(
                                                        st2.stack[0],
                                                    ));
                                                    lemma_wstack_drop_last(stack);
                                                    lemma_wstack_push(
                                                        stack.drop_last(),
                                                        st2.stack[0],
                                                    );
                                                    assert(mid.stack.drop_last() =~= wstack_of(
                                                        stack,
                                                    ).drop_last());
                                                    if truthy(c) {
                                                        lemma_correspond_extend(
                                                            p1.1,
                                                            p2.1,
                                                            st2.locals,
                                                            wl2,
                                                        );
                                                    }
                                                    assert(sim_witness(
                                                        pair,
                                                        wst,
                                                        stack.drop_last().push(st2.stack[0]),
                                                        p2.1,
                                                        st2.locals,
                                                        wl2,
                                                    ));
                                                } else {
                                                    assert(wstack_of(st2.stack).len() != 1);
                                                }
                                            },
                                            None => {},
                                        }
                                    }
                                },
                                Err(_) => {},
                            }
                        },
                        Err(_) => {},
                    }
                },
                None => {},
            }
        },
        _ => {},
    }
}

/// A write through the renaming updates both stores alike and keeps the
/// correspondence.
proof fn lemma_correspond_insert(mat: MatTable, k: u32, v: i64, ml: Map<u32, i64>, wl: Map<int, i64>)
    requires
        mat.no_duplicates(),
        locals_correspond(mat, ml, wl),
    ensures
        locals_correspond(
            materialize(mat, k).0,
            ml.insert(k, v),
            wl.insert(materialize(mat, k).1, v),
        ),
{
    let p = materialize(mat, k);
    let idx = p.1;
    let ml2 = ml.insert(k, v);
    let wl2 = wl.insert(idx, v);
    if mat.contains(k) {
        crate::emit::lemma_mat_index_bound(mat, k);
        assert(mat[idx] == k);
        assert forall|j: int| 0 <= j < p.0.len() implies #[trigger] wlocal_read(wl2, j)
            == local_read(ml2, p.0[j]) by {
            assert(wlocal_read(wl, j) == local_read(ml, mat[j]));
            if j != idx {
                assert(mat[j] != k);
            }
        }
        assert forall|k2: u32| !p.0.contains(k2) implies #[trigger] local_read(ml2, k2) == 0 by {
            assert(k2 != k);
            assert(local_read(ml, k2) == 0);
        }
        assert forall|j: int| j >= p.0.len() implies #[trigger] wlocal_read(wl2, j) == 0 by {
            assert(j != idx);
            assert(wlocal_read(wl, j) == 0);
        }
    } else {
        let mat2 = mat.push(k);
        assert forall|j: int| 0 <= j < mat2.len() implies #[trigger] wlocal_read(wl2, j)
            == local_read(ml2, mat2[j]) by {
            if j == idx {
                assert(mat2[j] == k);
            } else {
                assert(j < mat.len());
                assert(mat2[j] == mat[j]);
                assert(wlocal_read(wl, j) == local_read(ml, mat[j]));
                assert(mat[j] != k) by {
                    if mat[j] == k {
                        assert(mat.contains(k));
                    }
                }
            }
        }
        assert forall|k2: u32| !mat2.contains(k2) implies #[trigger] local_read(ml2, k2) == 0 by {
            assert(k2 != k) by {
                if k2 == k {
                    assert(mat2[mat.len() as int] == k);
                    assert(mat2.contains(k));
                }
            }
            assert(!mat.contains(k2)) by {
                if mat.contains(k2) {
                    let i = choose|i: int| 0 <= i < mat.len() && mat[i] == k2;
                    assert(mat2[i] == k2);
                    assert(mat2.contains(k2));
                }
            }
            assert(local_read(ml, k2) == 0);
        }
        assert forall|j: int| j >= mat2.len() implies #[trigger] wlocal_read(wl2, j) == 0 by {
            assert(j != idx);
            assert(wlocal_read(wl, j) == 0);
        }
    }
}

/// The renaming simulation over a whole sequence.
pub proof fn lemma_emit_simulates_seq(
    s: Seq<MirS>,
    mat: MatTable,
    stack: Seq<i64>,
    ml: Map<u32, i64>,
    wl: Map<int, i64>,
)
    requires
        mat.no_duplicates(),
        locals_correspond(mat, ml, wl),
    ensures
        emit_seq(s, mat) matches Ok(p) ==> (match mrun_seq(s, MState { stack, locals: ml }) {
            Some(st2) => sim_runs(
                p.0,
                WState { stack: wstack_of(stack), locals: wl },
                st2.stack,
                p.1,
                st2.locals,
            ),
            None => wrun_seq(p.0, WState { stack: wstack_of(stack), locals: wl }) is None,
        }),
    decreases s,
{
    let wst = WState { stack: wstack_of(stack), locals: wl };
    if s.len() == 0 {
        assert(sim_witness(Seq::<WasmS>::empty(), wst, stack, mat, ml, wl));
    } else {
        lemma_emit_simulates_op(s.first(), mat, stack, ml, wl);
        crate::emit::lemma_emit_op_mat_nodup(s.first(), mat);
        match emit_op(s.first(), mat) {
            Ok(p1) => {
                match mrun_op(s.first(), MState { stack, locals: ml }) {
                    Some(st1) => {
                        let wl1 = choose|x: Map<int, i64>|
                            sim_witness(p1.0, wst, st1.stack, p1.1, st1.locals, x);
                        lemma_emit_simulates_seq(s.drop_first(), p1.1, st1.stack, st1.locals, wl1);
                        match emit_seq(s.drop_first(), p1.1) {
                            Ok(p2) => {
                                lemma_wrun_seq_concat(p1.0, p2.0, wst);
                                let wst1 = WState { stack: wstack_of(st1.stack), locals: wl1 };
                                match mrun_seq(s.drop_first(), st1) {
                                    Some(st2) => {
                                        let wl2 = choose|x: Map<int, i64>|
                                            sim_witness(p2.0, wst1, st2.stack, p2.1, st2.locals, x);
                                        assert(sim_witness(
                                            p1.0 + p2.0,
                                            wst,
                                            st2.stack,
                                            p2.1,
                                            st2.locals,
                                            wl2,
                                        ));
                                    },
                                    None => {},
                                }
                            },
                            Err(_) => {},
                        }
                    },
                    None => {
                        match emit_seq(s.drop_first(), p1.1) {
                            Ok(p2) => {
                                lemma_wrun_seq_concat(p1.0, p2.0, wst);
                            },
                            Err(_) => {},
                        }
                    },
                }
            },
            Err(_) => {},
        }
    }
}

/// The renaming simulation for a whole program: whatever the IR machine
/// computes of it — values, traps, and the final store, slot for slot —
/// the emitted machine code computes too, through the slot-to-storage
/// renaming, starting from empty stores.
pub proof fn lemma_emit_simulates_program(code: Seq<MirS>)
    ensures
        emit_program(code) matches Ok(p) ==> (match mrun_seq(
            code,
            MState { stack: Seq::empty(), locals: Map::empty() },
        ) {
            Some(st2) => sim_runs(
                p.0,
                WState { stack: Seq::empty(), locals: Map::empty() },
                st2.stack,
                p.1,
                st2.locals,
            ),
            None => wrun_seq(
                p.0,
                WState { stack: Seq::empty(), locals: Map::empty() },
            ) is None,
        }),
{
    let mat0: MatTable = Seq::empty();
    assert(mat0.no_duplicates());
    assert(locals_correspond(mat0, Map::empty(), Map::empty()));
    lemma_emit_simulates_seq(
        code,
        mat0,
        Seq::empty(),
        Map::empty(),
        Map::<int, i64>::empty(),
    );
    assert(wstack_of(Seq::<i64>::empty()) =~= Seq::<WVal>::empty());
}

} // verus!
