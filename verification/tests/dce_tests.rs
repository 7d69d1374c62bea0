use iropt::dce::global_dce;
use iropt::ir::{Code, EffectOp, Function, Instruction, Literal, Program, Type, ValueOp};
use iropt::resolver::GlobalData;

fn cint(d: &str, v: i64) -> Code {
    Code::Instruction(Instruction::Constant {
        dest: d.to_string(),
        const_type: Type::Int,
        value: Literal::Int(v),
    })
}

fn vadd(d: &str, a: &str, b: &str) -> Code {
    Code::Instruction(Instruction::Value {
        op: ValueOp::Add,
        dest: d.to_string(),
        op_type: Type::Int,
        args: vec![a.to_string(), b.to_string()],
        funcs: vec![],
        labels: vec![],
    })
}

fn print(x: &str) -> Code {
    Code::Instruction(Instruction::Effect {
        op: EffectOp::Print,
        args: vec![x.to_string()],
        funcs: vec![],
        labels: vec![],
    })
}

fn jump(l: &str) -> Code {
    Code::Instruction(Instruction::Effect {
        op: EffectOp::Jump,
        args: vec![],
        funcs: vec![],
        labels: vec![l.to_string()],
    })
}

fn label(l: &str) -> Code {
    Code::Label { label: l.to_string() }
}

fn func(name: &str, instrs: Vec<Code>) -> Function {
    Function { name: name.to_string(), args: vec![], return_type: None, instrs }
}

fn resolve(p: &Program) -> GlobalData {
    let mut d = GlobalData { data: Vec::new() };
    d.initial_fill(p).expect("function names are distinct");
    d.form_blocks(p);
    d
}

fn run_dce(p: &Program) -> Program {
    let d = resolve(p);
    global_dce(p, &d)
}

#[test]
fn dce_removes_a_true_dead_value() {
    let p = Program {
        functions: vec![func("main", vec![cint("x", 1), cint("y", 2), print("y")])],
    };
    let out = run_dce(&p);
    assert_eq!(out.functions[0].instrs, vec![cint("y", 2), print("y")]);
    assert_eq!(out.functions[0].name, "main".to_string());
}

#[test]
fn dce_chain_converges_to_empty() {
    let p = Program {
        functions: vec![func(
            "main",
            vec![cint("a", 1), vadd("b", "a", "a"), vadd("c", "b", "b")],
        )],
    };
    let out = run_dce(&p);
    assert_eq!(out.functions[0].instrs, Vec::<Code>::new());
    let again = run_dce(&out);
    assert_eq!(again.functions[0].instrs, Vec::<Code>::new());
}

#[test]
fn dce_rerun_on_result_is_a_no_op() {
    let p = Program {
        functions: vec![func(
            "main",
            vec![cint("x", 1), cint("z", 3), vadd("y", "x", "x"), print("y")],
        )],
    };
    let once = run_dce(&p);
    let twice = run_dce(&once);
    assert_eq!(once, twice);
}

#[test]
fn dce_keeps_consumed_values() {
    let p = Program {
        functions: vec![func("main", vec![cint("x", 1), vadd("y", "x", "x"), print("y")])],
    };
    let out = run_dce(&p);
    assert_eq!(out.functions[0].instrs, vec![cint("x", 1), vadd("y", "x", "x"), print("y")]);
}

#[test]
fn dce_removes_same_block_overwrite() {
    let p = Program {
        functions: vec![func("main", vec![cint("x", 1), cint("x", 2), print("x")])],
    };
    let out = run_dce(&p);
    assert_eq!(out.functions[0].instrs, vec![cint("x", 2), print("x")]);
}

#[test]
fn dce_keeps_cross_block_overwrite() {
    let p = Program {
        functions: vec![func(
            "main",
            vec![cint("x", 1), jump("l"), label("l"), cint("x", 2), print("x")],
        )],
    };
    let out = run_dce(&p);
    assert_eq!(
        out.functions[0].instrs,
        vec![cint("x", 1), jump("l"), label("l"), cint("x", 2), print("x")]
    );
}

#[test]
fn dce_leaves_other_functions_untouched() {
    let p = Program {
        functions: vec![
            func("main", vec![cint("x", 1)]),
            func("keep", vec![cint("y", 2), print("y")]),
        ],
    };
    let out = run_dce(&p);
    assert_eq!(out.functions.len(), 2);
    assert_eq!(out.functions[0].instrs, Vec::<Code>::new());
    assert_eq!(out.functions[1].instrs, vec![cint("y", 2), print("y")]);
}
