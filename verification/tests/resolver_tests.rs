use iropt::ir::{Code, EffectOp, Function, Instruction, Literal, Program, Type};
use iropt::resolver::{CFGPos, GlobalData, ResolveError};

fn cint(d: &str, v: i64) -> Code {
    Code::Instruction(Instruction::Constant {
        dest: d.to_string(),
        const_type: Type::Int,
        value: Literal::Int(v),
    })
}

fn jump(l: &str) -> Code {
    Code::Instruction(Instruction::Effect {
        op: EffectOp::Jump,
        args: vec![],
        funcs: vec![],
        labels: vec![l.to_string()],
    })
}

fn branch(c: &str, l1: &str, l2: &str) -> Code {
    Code::Instruction(Instruction::Effect {
        op: EffectOp::Branch,
        args: vec![c.to_string()],
        funcs: vec![],
        labels: vec![l1.to_string(), l2.to_string()],
    })
}

fn ret() -> Code {
    Code::Instruction(Instruction::Effect {
        op: EffectOp::Return,
        args: vec![],
        funcs: vec![],
        labels: vec![],
    })
}

fn ecall(f: &str) -> Code {
    Code::Instruction(Instruction::Effect {
        op: EffectOp::Call,
        args: vec![],
        funcs: vec![f.to_string()],
        labels: vec![],
    })
}

fn label(l: &str) -> Code {
    Code::Label { label: l.to_string() }
}

fn func(name: &str, instrs: Vec<Code>) -> Function {
    Function { name: name.to_string(), args: vec![], return_type: None, instrs }
}

fn resolve(p: &Program) -> GlobalData {
    let mut d = GlobalData { data: Vec::new() };
    d.initial_fill(p).expect("function names are distinct");
    d.form_blocks(p);
    d
}

fn pos(funcno: usize, blockno: usize) -> CFGPos {
    CFGPos { funcno, blockno }
}

#[test]
fn blocks_cover_body_with_label() {
    let p = Program { functions: vec![func("main", vec![label("top"), cint("x", 1), jump("top")])] };
    let d = resolve(&p);
    assert_eq!(d.data[0].blocks, vec![(0, 3)]);
    assert_eq!(d.data[0].labels, vec![("top".to_string(), 0)]);
}

#[test]
fn blocks_split_on_terminators() {
    let p = Program {
        functions: vec![
            func("main", vec![cint("a", 1), ecall("f"), cint("b", 2), ret()]),
            func("f", vec![ret()]),
        ],
    };
    let d = resolve(&p);
    assert_eq!(d.data[0].blocks, vec![(0, 2), (2, 4)]);
    assert_eq!(d.data[0].calls, vec![(1, "f".to_string())]);
    assert_eq!(d.data[0].returns, vec![3]);
    assert_eq!(d.data[1].blocks, vec![(0, 1)]);
    assert_eq!(d.data[1].returns, vec![0]);
    assert_eq!(d.data[1].callers, vec![pos(0, 0)]);
}

#[test]
fn cfg_jump_edge_to_owning_block() {
    let p = Program { functions: vec![func("main", vec![label("top"), cint("x", 1), jump("top")])] };
    let d = resolve(&p);
    let cfg = d.form_cfg(&p).expect("labels are defined");
    assert_eq!(cfg.len(), 1);
    assert_eq!(cfg[0], vec![vec![pos(0, 0)]]);
}

#[test]
fn cfg_branch_edges_to_both_labels() {
    let p = Program {
        functions: vec![func(
            "main",
            vec![branch("c", "a", "b"), label("a"), cint("x", 1), label("b"), cint("y", 2)],
        )],
    };
    let d = resolve(&p);
    assert_eq!(d.data[0].blocks, vec![(0, 1), (1, 3), (3, 5)]);
    let cfg = d.form_cfg(&p).expect("labels are defined");
    assert_eq!(cfg[0][0], vec![pos(0, 1), pos(0, 2)]);
    assert_eq!(cfg[0][1], Vec::<CFGPos>::new());
    assert_eq!(cfg[0][2], Vec::<CFGPos>::new());
}

#[test]
fn cfg_call_edge_and_fallthrough() {
    let p = Program {
        functions: vec![func("main", vec![ecall("f"), cint("x", 1)]), func("f", vec![ret()])],
    };
    let d = resolve(&p);
    let cfg = d.form_cfg(&p).expect("callees are defined");
    assert_eq!(cfg[0][0], vec![pos(1, 0), pos(0, 1)]);
    assert_eq!(cfg[0][1], Vec::<CFGPos>::new());
    assert_eq!(cfg[1][0], vec![pos(0, 0)]);
}

#[test]
fn cfg_call_in_last_block_has_no_fallthrough() {
    let p = Program { functions: vec![func("main", vec![ecall("f")]), func("f", vec![ret()])] };
    let d = resolve(&p);
    let cfg = d.form_cfg(&p).expect("callees are defined");
    assert_eq!(cfg[0][0], vec![pos(1, 0)]);
}

#[test]
fn return_fans_out_to_every_caller() {
    let p = Program {
        functions: vec![
            func("main", vec![ecall("f"), ecall("f")]),
            func("g", vec![ecall("f")]),
            func("f", vec![ret()]),
        ],
    };
    let d = resolve(&p);
    let cfg = d.form_cfg(&p).expect("callees are defined");
    assert_eq!(cfg[2][0], vec![pos(0, 0), pos(0, 1), pos(1, 0)]);
}

#[test]
fn duplicate_function_name_is_fatal() {
    let p = Program {
        functions: vec![func("main", vec![cint("x", 1)]), func("main", vec![cint("y", 2)])],
    };
    let mut d = GlobalData { data: Vec::new() };
    assert_eq!(d.initial_fill(&p), Err(ResolveError::DuplicateFunction));
}

#[test]
fn undefined_label_is_fatal() {
    let p = Program { functions: vec![func("main", vec![jump("nowhere")])] };
    let d = resolve(&p);
    assert_eq!(d.form_cfg(&p).err(), Some(ResolveError::UndefinedLabel));
}

#[test]
fn undefined_callee_is_fatal() {
    let p = Program { functions: vec![func("main", vec![ecall("ghost")])] };
    let d = resolve(&p);
    assert_eq!(d.form_cfg(&p).err(), Some(ResolveError::UndefinedCallee));
}
