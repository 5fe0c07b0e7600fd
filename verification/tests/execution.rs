use nordc::ast::Atom;
use nordc::ast::Expr;
use nordc::ast::Opcode;
use nordc::mir::compile;
use nordc::mir_context::MirContext;
use nordc::mir_context::mir_to_wasm;
use nordc::mir_context::to_wasm_module;
use nordc::mir_context::to_wat_module;
use nordc::sem::eval;

fn num(n: i64) -> Expr {
    Expr::Constant(Atom::Num(n))
}

fn ident(s: &str) -> Expr {
    Expr::Constant(Atom::Identifier(s.to_string()))
}

fn bin(l: Expr, op: Opcode, r: Expr) -> Expr {
    Expr::BinaryOp(Box::new(l), op, Box::new(r))
}

fn let_(name: &str, e: Expr) -> Expr {
    Expr::Let(name.to_string(), Box::new(e))
}

fn if_else(c: Expr, t: Expr, e: Expr) -> Expr {
    Expr::IfElse(Box::new(c), Box::new(t), Some(Box::new(e)))
}

fn run_main(wasm: &[u8]) -> Result<i64, String> {
    let engine = wasmtime::Engine::default();
    let module = wasmtime::Module::new(&engine, wasm).map_err(|e| e.to_string())?;
    let linker: wasmtime::Linker<()> = wasmtime::Linker::new(&engine);
    let mut store: wasmtime::Store<()> = wasmtime::Store::new(&engine, ());
    let instance = linker
        .instantiate(&mut store, &module)
        .map_err(|e| e.to_string())?;
    let func = instance
        .get_typed_func::<(), i64>(&mut store, "main")
        .map_err(|e| e.to_string())?;
    func.call(&mut store, ()).map_err(|e| e.to_string())
}

fn compile_and_run(ast: &Expr) -> Result<i64, String> {
    let ir = compile(ast).map_err(|e| format!("{:?}", e))?;
    let wasm = to_wasm_module(&ir).map_err(|e| format!("{:?}", e))?;
    run_main(&wasm)
}

#[test]
fn executes_mul_before_add() {
    let ast = bin(num(1), Opcode::Add, bin(num(2), Opcode::Mul, num(3)));
    assert_eq!(compile_and_run(&ast), Ok(7));
}

#[test]
fn executes_let_assign_read() {
    let ast = Expr::Block(vec![
        let_("x", num(5)),
        bin(ident("x"), Opcode::Assign, bin(ident("x"), Opcode::Add, num(1))),
        ident("x"),
    ]);
    assert_eq!(compile_and_run(&ast), Ok(6));
}

#[test]
fn executes_comparison_conditional() {
    let ast = if_else(bin(num(1), Opcode::Less, num(2)), num(10), num(20));
    assert_eq!(compile_and_run(&ast), Ok(10));
}

#[test]
fn executes_negation() {
    let ast = Expr::UnaryOp(Opcode::Neg, Box::new(bin(num(3), Opcode::Add, num(4))));
    assert_eq!(compile_and_run(&ast), Ok(-7));
}

#[test]
fn widened_comparison_feeds_arithmetic() {
    // (1 < 2) + 5: the comparison's widened result behaves as exactly 1
    let ast = bin(bin(num(1), Opcode::Less, num(2)), Opcode::Add, num(5));
    assert_eq!(compile_and_run(&ast), Ok(6));
    // (2 < 1) + 5: and as exactly 0
    let ast0 = bin(bin(num(2), Opcode::Less, num(1)), Opcode::Add, num(5));
    assert_eq!(compile_and_run(&ast0), Ok(5));
}

#[test]
fn nonzero_condition_takes_then_branch() {
    assert_eq!(compile_and_run(&if_else(num(1), num(10), num(20))), Ok(10));
    assert_eq!(compile_and_run(&if_else(num(-7), num(10), num(20))), Ok(10));
}

#[test]
fn zero_condition_takes_else_branch() {
    assert_eq!(compile_and_run(&if_else(num(0), num(10), num(20))), Ok(20));
}

#[test]
fn condition_is_narrowed_to_test_width() {
    // 1 << 32 narrows to 0 before the branch test: the else branch runs
    let big = 4294967296i64;
    let ast = if_else(num(big), num(10), num(20));
    assert_eq!(eval(&ast), Ok(20));
    assert_eq!(compile_and_run(&ast), Ok(20));
}

#[test]
fn module_and_evaluator_agree_on_arithmetic() {
    let cases = [
        bin(num(6), Opcode::Sub, bin(num(2), Opcode::Mul, num(10))),
        bin(bin(num(9), Opcode::Div, num(2)), Opcode::Add, num(100)),
        bin(bin(num(-9), Opcode::Mod, num(4)), Opcode::Mul, num(3)),
        bin(num(i64::MAX), Opcode::Add, num(1)),
        bin(
            bin(num(5), Opcode::GreaterEqual, num(5)),
            Opcode::Add,
            bin(num(3), Opcode::NotEqual, num(3)),
        ),
        Expr::UnaryOp(Opcode::Neg, Box::new(num(i64::MIN))),
    ];
    for ast in cases.iter() {
        let expected = eval(ast).expect("reference value");
        assert_eq!(compile_and_run(ast), Ok(expected));
    }
}

#[test]
fn module_traps_where_evaluator_traps() {
    let ast = bin(num(1), Opcode::Div, num(0));
    let ir = compile(&ast).unwrap();
    let wasm = to_wasm_module(&ir).unwrap();
    assert!(run_main(&wasm).is_err());
    let ast2 = bin(num(i64::MIN), Opcode::Div, num(-1));
    let ir2 = compile(&ast2).unwrap();
    let wasm2 = to_wasm_module(&ir2).unwrap();
    assert!(run_main(&wasm2).is_err());
}

#[test]
fn min_rem_minus_one_executes_as_zero() {
    let ast = bin(num(i64::MIN), Opcode::Mod, num(-1));
    assert_eq!(compile_and_run(&ast), Ok(0));
    assert_eq!(eval(&ast), Ok(0));
}

#[test]
fn read_before_write_reads_zeroed_storage() {
    let ast = bin(ident("fresh"), Opcode::Add, num(41));
    assert_eq!(compile_and_run(&ast), Ok(41));
}

#[test]
fn shadowed_binding_reads_newest_slot() {
    let ast = Expr::Block(vec![let_("x", num(1)), let_("x", num(2)), ident("x")]);
    assert_eq!(compile_and_run(&ast), Ok(2));
}

#[test]
fn unexecuted_branch_shadows_slots_for_later_reads() {
    // The slot table is flat for the whole unit: a let inside the "then"
    // branch shadows the name from then on even though that branch never
    // runs, so the read in the else branch — lowered afterwards — sees the
    // fresh, zeroed slot rather than 7.
    let ast = Expr::Block(vec![
        let_("x", num(7)),
        if_else(
            num(0),
            Expr::Block(vec![let_("x", num(1)), num(0)]),
            ident("x"),
        ),
    ]);
    assert_eq!(compile_and_run(&ast), Ok(0));
}

#[test]
fn context_without_open_builder_reports_it() {
    let mut ctx = MirContext::new(walrus::Module::default());
    assert_eq!(
        mir_to_wasm(&nordc::mir::Mir::ConstI64(1), &mut ctx),
        Err(nordc::emit::EmitError::BuilderNotSet)
    );
    assert_eq!(
        ctx.finish_builder(Vec::new()),
        Err(nordc::emit::EmitError::BuilderNotSet)
    );
}

#[test]
fn emitters_agree_byte_for_byte() {
    // the same program serializes to the same bytes, whichever entry
    // point emits it and however often
    let build = || {
        Expr::Block(vec![
            let_("x", num(5)),
            bin(ident("x"), Opcode::Assign, bin(ident("x"), Opcode::Add, num(1))),
            ident("x"),
        ])
    };
    let ir1 = compile(&build()).unwrap();
    let ir2 = compile(&build()).unwrap();
    let plain = to_wat_module(&ir1);
    let again = to_wat_module(&ir1);
    let checked = to_wasm_module(&ir2).unwrap();
    assert_eq!(plain, again);
    assert_eq!(plain, checked);
}

#[test]
fn emitted_module_carries_wasm_magic() {
    let ir = compile(&num(42)).unwrap();
    let wasm = to_wat_module(&ir);
    assert_eq!(&wasm[0..4], b"\0asm");
    assert_eq!(run_main(&wasm), Ok(42));
}

#[test]
fn context_materializes_storage_lazily() {
    let mut ctx = MirContext::new(walrus::Module::default());
    ctx.set_new_builder();
    assert!(ctx.get_local(5).is_none());
    mir_to_wasm(&nordc::mir::Mir::ConstI64(9), &mut ctx).unwrap();
    assert!(ctx.get_local(5).is_none());
    mir_to_wasm(&nordc::mir::Mir::LocalTee(5), &mut ctx).unwrap();
    let first = ctx.get_local(5).expect("materialized on first use");
    let again = ctx.get_or_add_local(5);
    assert_eq!(first, again);
    let other = ctx.get_or_add_local(2);
    assert_ne!(first, other);
    let function = ctx.finish_builder(Vec::new()).unwrap();
    ctx.export_function("main", function);
    let wasm = ctx.emit_wasm();
    assert_eq!(run_main(&wasm), Ok(9));
}
