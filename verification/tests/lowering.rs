use nordc::ast::Atom;
use nordc::ast::Expr;
use nordc::ast::Opcode;
use nordc::emit::EmitError;
use nordc::emit::WasmOp;
use nordc::emit::emit_ops;
use nordc::mir::CompileError;
use nordc::mir::Mir;
use nordc::mir::compile;
use nordc::sem::EvalError;
use nordc::sem::eval;

fn num(n: i64) -> Expr {
    Expr::Constant(Atom::Num(n))
}

fn boolean(b: bool) -> Expr {
    Expr::Constant(Atom::Boolean(b))
}

fn ident(s: &str) -> Expr {
    Expr::Constant(Atom::Identifier(s.to_string()))
}

fn bin(l: Expr, op: Opcode, r: Expr) -> Expr {
    Expr::BinaryOp(Box::new(l), op, Box::new(r))
}

fn let_(name: &str, e: Expr) -> Expr {
    Expr::Let(name.to_string(), Box::new(e))
}

fn neg(e: Expr) -> Expr {
    Expr::UnaryOp(Opcode::Neg, Box::new(e))
}

#[test]
fn lowers_mul_before_add() {
    // 1 + 2 * 3: operands strictly left to right, operator afterwards
    let ast = bin(num(1), Opcode::Add, bin(num(2), Opcode::Mul, num(3)));
    let ir = compile(&ast).unwrap();
    let expected = vec![
        Mir::ConstI64(1),
        Mir::ConstI64(2),
        Mir::ConstI64(3),
        Mir::MulI64,
        Mir::AddI64,
    ];
    assert_eq!(ir, expected);
}

#[test]
fn checked_compile_agrees_with_compile() {
    let build = || bin(ident("a"), Opcode::Add, bin(num(2), Opcode::Mul, ident("b")));
    assert_eq!(
        nordc::mir::compile_checked(&build()),
        compile(&build())
    );
}

#[test]
fn lowers_booleans_to_one_and_zero() {
    let ir_true = compile(&boolean(true)).unwrap();
    let ir_false = compile(&boolean(false)).unwrap();
    assert_eq!(ir_true, vec![Mir::ConstI64(1)]);
    assert_eq!(ir_false, vec![Mir::ConstI64(0)]);
}

#[test]
fn lowers_negation_as_zero_minus() {
    // -(3 + 4) becomes 0 - (3 + 4)
    let ast = neg(bin(num(3), Opcode::Add, num(4)));
    let ir = compile(&ast).unwrap();
    let expected = vec![
        Mir::ConstI64(0),
        Mir::ConstI64(3),
        Mir::ConstI64(4),
        Mir::AddI64,
        Mir::SubI64,
    ];
    assert_eq!(ir, expected);
}

#[test]
fn lowers_let_assign_read() {
    // let x = 5; x = x + 1; x — slot 0 throughout
    let ast = Expr::Block(vec![
        let_("x", num(5)),
        bin(ident("x"), Opcode::Assign, bin(ident("x"), Opcode::Add, num(1))),
        ident("x"),
    ]);
    let ir = compile(&ast).unwrap();
    let expected = vec![Mir::Block(vec![
        Mir::ConstI64(5),
        Mir::LocalSet(0),
        Mir::LocalGet(0),
        Mir::ConstI64(1),
        Mir::AddI64,
        Mir::LocalSet(0),
        Mir::LocalGet(0),
    ])];
    assert_eq!(ir, expected);
}

#[test]
fn slot_allocation_is_repeatable() {
    // the same tree, lowered twice from fresh tables, gets identical slots
    let build = || {
        Expr::Block(vec![
            let_("a", num(1)),
            let_("b", num(2)),
            bin(ident("a"), Opcode::Add, bin(ident("b"), Opcode::Add, ident("c"))),
        ])
    };
    let first = compile(&build()).unwrap();
    let second = compile(&build()).unwrap();
    assert_eq!(first, second);
}

#[test]
fn left_operand_slots_come_first() {
    // reading a then b: a gets slot 0, b gets slot 1
    let ast = bin(ident("a"), Opcode::Add, ident("b"));
    let ir = compile(&ast).unwrap();
    assert_eq!(ir, vec![Mir::LocalGet(0), Mir::LocalGet(1), Mir::AddI64]);
}

#[test]
fn shadowing_let_gets_fresh_slot() {
    // a second let of the same name allocates a new slot; the old one stays
    let ast = Expr::Block(vec![let_("x", num(1)), let_("x", num(2)), ident("x")]);
    let ir = compile(&ast).unwrap();
    let expected = vec![Mir::Block(vec![
        Mir::ConstI64(1),
        Mir::LocalSet(0),
        Mir::ConstI64(2),
        Mir::LocalSet(1),
        Mir::LocalGet(1),
    ])];
    assert_eq!(ir, expected);
}

#[test]
fn conditional_lowers_condition_into_enclosing_sequence() {
    let ast = Expr::IfElse(
        Box::new(bin(num(1), Opcode::Less, num(2))),
        Box::new(num(10)),
        Some(Box::new(num(20))),
    );
    let ir = compile(&ast).unwrap();
    let expected = vec![
        Mir::ConstI64(1),
        Mir::ConstI64(2),
        Mir::LessThanI64,
        Mir::IfElse(vec![Mir::ConstI64(10)], Some(vec![Mir::ConstI64(20)])),
    ];
    assert_eq!(ir, expected);
}

#[test]
fn assignment_to_undeclared_name_is_an_error() {
    // an undeclared identifier as assignment target: no slot, no bytes
    let ast = bin(ident("nope"), Opcode::Assign, num(1));
    assert_eq!(compile(&ast), Err(CompileError::UndefinedVariable));
}

#[test]
fn assignment_to_non_identifier_is_an_error() {
    let ast = bin(num(1), Opcode::Assign, num(2));
    assert_eq!(compile(&ast), Err(CompileError::InvalidAssignmentTarget));
}

#[test]
fn array_literal_is_unsupported() {
    let ast = Expr::Array(vec![num(1), num(2)]);
    assert_eq!(compile(&ast), Err(CompileError::UnsupportedExpression));
}

#[test]
fn logical_and_is_unsupported() {
    let ast = bin(boolean(true), Opcode::And, boolean(false));
    assert_eq!(
        compile(&ast),
        Err(CompileError::UnsupportedOpcode(Opcode::And))
    );
}

#[test]
fn string_constant_is_unsupported() {
    let ast = Expr::Constant(Atom::Text("hello".to_string()));
    assert_eq!(compile(&ast), Err(CompileError::UnsupportedExpression));
}

#[test]
fn emission_widens_every_comparison() {
    let ast = bin(num(1), Opcode::Less, num(2));
    let ir = compile(&ast).unwrap();
    let mut mat: Vec<u32> = Vec::new();
    let mut out: Vec<WasmOp> = Vec::new();
    emit_ops(&ir, &mut mat, &mut out).unwrap();
    let expected = vec![
        WasmOp::I64Const(1),
        WasmOp::I64Const(2),
        WasmOp::I64LtS,
        WasmOp::I64ExtendUI32,
    ];
    assert_eq!(out, expected);
}

#[test]
fn emission_narrows_the_condition_before_branching() {
    let ir = vec![
        Mir::ConstI64(1),
        Mir::IfElse(vec![Mir::ConstI64(10)], Some(vec![Mir::ConstI64(20)])),
    ];
    let mut mat: Vec<u32> = Vec::new();
    let mut out: Vec<WasmOp> = Vec::new();
    emit_ops(&ir, &mut mat, &mut out).unwrap();
    let expected = vec![
        WasmOp::I64Const(1),
        WasmOp::I32WrapI64,
        WasmOp::IfElse(vec![WasmOp::I64Const(10)], vec![WasmOp::I64Const(20)]),
    ];
    assert_eq!(out, expected);
}

#[test]
fn emission_materializes_slots_in_first_use_order() {
    let ir = vec![
        Mir::ConstI64(7),
        Mir::LocalSet(5),
        Mir::LocalGet(5),
        Mir::LocalGet(3),
        Mir::AddI64,
    ];
    let mut mat: Vec<u32> = Vec::new();
    let mut out: Vec<WasmOp> = Vec::new();
    emit_ops(&ir, &mut mat, &mut out).unwrap();
    assert_eq!(mat, vec![5, 3]);
    let expected = vec![
        WasmOp::I64Const(7),
        WasmOp::LocalSet(0),
        WasmOp::LocalGet(0),
        WasmOp::LocalGet(1),
        WasmOp::I64Add,
    ];
    assert_eq!(out, expected);
}

#[test]
fn emission_rejects_else_less_conditional() {
    let ir = vec![Mir::ConstI64(1), Mir::IfElse(vec![Mir::ConstI64(10)], None)];
    let mut mat: Vec<u32> = Vec::new();
    let mut out: Vec<WasmOp> = Vec::new();
    assert_eq!(
        emit_ops(&ir, &mut mat, &mut out),
        Err(EmitError::UnsupportedInstruction)
    );
}

#[test]
fn emission_rejects_loop_and_drop() {
    let mut mat: Vec<u32> = Vec::new();
    let mut out: Vec<WasmOp> = Vec::new();
    assert_eq!(
        emit_ops(&vec![Mir::Loop(vec![])], &mut mat, &mut out),
        Err(EmitError::UnsupportedInstruction)
    );
    let mut mat2: Vec<u32> = Vec::new();
    let mut out2: Vec<WasmOp> = Vec::new();
    assert_eq!(
        emit_ops(&vec![Mir::Drop], &mut mat2, &mut out2),
        Err(EmitError::UnsupportedInstruction)
    );
}

#[test]
fn eval_arithmetic() {
    let ast = bin(num(1), Opcode::Add, bin(num(2), Opcode::Mul, num(3)));
    assert_eq!(eval(&ast), Ok(7));
}

#[test]
fn eval_let_assign_read() {
    let ast = Expr::Block(vec![
        let_("x", num(5)),
        bin(ident("x"), Opcode::Assign, bin(ident("x"), Opcode::Add, num(1))),
        ident("x"),
    ]);
    assert_eq!(eval(&ast), Ok(6));
}

#[test]
fn eval_read_before_write_is_zero() {
    let ast = bin(ident("fresh"), Opcode::Add, num(3));
    assert_eq!(eval(&ast), Ok(3));
}

#[test]
fn eval_division_by_zero_traps() {
    let ast = bin(num(1), Opcode::Div, num(0));
    assert_eq!(eval(&ast), Err(EvalError::Trap));
}

#[test]
fn eval_min_divided_by_minus_one_traps() {
    let ast = bin(num(i64::MIN), Opcode::Div, num(-1));
    assert_eq!(eval(&ast), Err(EvalError::Trap));
}

#[test]
fn eval_min_rem_minus_one_is_zero() {
    let ast = bin(num(i64::MIN), Opcode::Mod, num(-1));
    assert_eq!(eval(&ast), Ok(0));
}

#[test]
fn eval_addition_wraps() {
    let ast = bin(num(i64::MAX), Opcode::Add, num(1));
    assert_eq!(eval(&ast), Ok(i64::MIN));
}

#[test]
fn eval_division_truncates_toward_zero() {
    assert_eq!(eval(&bin(num(7), Opcode::Div, num(-2))), Ok(-3));
    assert_eq!(eval(&bin(num(-7), Opcode::Div, num(2))), Ok(-3));
    assert_eq!(eval(&bin(num(-7), Opcode::Mod, num(2))), Ok(-1));
}

#[test]
fn eval_errors_mirror_lowering_errors() {
    assert_eq!(
        eval(&bin(ident("nope"), Opcode::Assign, num(1))),
        Err(EvalError::UndefinedVariable)
    );
    assert_eq!(
        eval(&bin(num(1), Opcode::Assign, num(2))),
        Err(EvalError::InvalidAssignmentTarget)
    );
    assert_eq!(
        eval(&Expr::Array(vec![])),
        Err(EvalError::UnsupportedExpression)
    );
    assert_eq!(
        eval(&bin(num(1), Opcode::Or, num(2))),
        Err(EvalError::UnsupportedOpcode(Opcode::Or))
    );
}
