use iropt::ir::{Code, EffectOp, Function, Instruction, Literal, Program, Type, ValueOp};
use iropt::lvn::{LVNError, LVNTable, Rval, ValueArg};
use iropt::resolver::GlobalData;

fn cint(d: &str, v: i64) -> Code {
    Code::Instruction(Instruction::Constant {
        dest: d.to_string(),
        const_type: Type::Int,
        value: Literal::Int(v),
    })
}

fn vop(op: ValueOp, d: &str, args: Vec<&str>) -> Code {
    Code::Instruction(Instruction::Value {
        op,
        dest: d.to_string(),
        op_type: Type::Int,
        args: args.into_iter().map(|a| a.to_string()).collect(),
        funcs: vec![],
        labels: vec![],
    })
}

fn vid(d: &str, src: &str) -> Code {
    vop(ValueOp::Id, d, vec![src])
}

fn print(x: &str) -> Code {
    Code::Instruction(Instruction::Effect {
        op: EffectOp::Print,
        args: vec![x.to_string()],
        funcs: vec![],
        labels: vec![],
    })
}

fn jump(l: &str) -> Code {
    Code::Instruction(Instruction::Effect {
        op: EffectOp::Jump,
        args: vec![],
        funcs: vec![],
        labels: vec![l.to_string()],
    })
}

fn label(l: &str) -> Code {
    Code::Label { label: l.to_string() }
}

fn func(name: &str, instrs: Vec<Code>) -> Function {
    Function { name: name.to_string(), args: vec![], return_type: None, instrs }
}

fn resolve(p: &Program) -> GlobalData {
    let mut d = GlobalData { data: Vec::new() };
    d.initial_fill(p).expect("function names are distinct");
    d.form_blocks(p);
    d
}

fn fresh_table() -> LVNTable {
    LVNTable { remaps: vec![], exprs: vec![], entries: vec![], args: vec![] }
}

fn run_lvn(p: &mut Program) -> Result<(), LVNError> {
    let d = resolve(p);
    let mut t = fresh_table();
    t.global_lvn(p, &d)
}

#[test]
fn lvn_rewrites_redundant_pair() {
    let mut p = Program {
        functions: vec![func(
            "main",
            vec![
                cint("a", 4),
                cint("b", 4),
                vop(ValueOp::Add, "c", vec!["a", "b"]),
                vop(ValueOp::Add, "d", vec!["a", "b"]),
            ],
        )],
    };
    run_lvn(&mut p).expect("all operands are bound");
    let expected =
        vec![cint("a", 4), vid("b", "a"), vop(ValueOp::Add, "c", vec!["a", "a"]), vid("d", "c")];
    assert_eq!(p.functions[0].instrs, expected);
}

#[test]
fn lvn_second_run_changes_nothing() {
    let mut p = Program {
        functions: vec![func(
            "main",
            vec![
                cint("a", 4),
                cint("b", 4),
                vop(ValueOp::Add, "c", vec!["a", "b"]),
                vop(ValueOp::Add, "d", vec!["a", "b"]),
            ],
        )],
    };
    run_lvn(&mut p).expect("all operands are bound");
    let once =
        vec![cint("a", 4), vid("b", "a"), vop(ValueOp::Add, "c", vec!["a", "a"]), vid("d", "c")];
    assert_eq!(p.functions[0].instrs, once);
    run_lvn(&mut p).expect("all operands are bound");
    assert_eq!(p.functions[0].instrs, once);
}

#[test]
fn lvn_commuted_operands_share_an_entry() {
    let mut p = Program {
        functions: vec![func(
            "main",
            vec![
                cint("a", 1),
                cint("b", 2),
                vop(ValueOp::Add, "c", vec!["a", "b"]),
                vop(ValueOp::Add, "d", vec!["b", "a"]),
            ],
        )],
    };
    run_lvn(&mut p).expect("all operands are bound");
    assert_eq!(p.functions[0].instrs[3], vid("d", "c"));
}

#[test]
fn lvn_equal_consts_hit_in_either_order() {
    let mut p1 = Program { functions: vec![func("main", vec![cint("x", 7), cint("y", 7)])] };
    run_lvn(&mut p1).expect("all operands are bound");
    assert_eq!(p1.functions[0].instrs, vec![cint("x", 7), vid("y", "x")]);

    let mut p2 = Program { functions: vec![func("main", vec![cint("y", 7), cint("x", 7)])] };
    run_lvn(&mut p2).expect("all operands are bound");
    assert_eq!(p2.functions[0].instrs, vec![cint("y", 7), vid("x", "y")]);
}

#[test]
fn const_keys_equal_only_for_equal_literals() {
    assert_eq!(Rval::from(Literal::Int(4)), Rval::from(Literal::Int(4)));
    assert_ne!(Rval::from(Literal::Int(4)), Rval::from(Literal::Int(5)));
    // the same bit pattern under different types stays distinct
    assert_ne!(Rval::from(Literal::Int(1)), Rval::from(Literal::Float(1)));
    assert_ne!(Rval::from(Literal::Bool(true)), Rval::from(Literal::Int(1)));
}

#[test]
fn const_key_round_trips_to_literal() {
    assert_eq!(Rval::from(Literal::Int(-5)).try_into(), Ok(Literal::Int(-5)));
    assert_eq!(Rval::from(Literal::Bool(true)).try_into(), Ok(Literal::Bool(true)));
    assert_eq!(Rval::from(Literal::Float(0x3FF0000000000000)).try_into(),
        Ok(Literal::Float(0x3FF0000000000000)));
    assert_eq!(Rval::from(Literal::Char('A')).try_into(), Ok(Literal::Char('A')));
    assert_eq!(Rval::NoVal.try_into(), Err(()));
}

#[test]
fn lvn_cache_reaches_across_blocks() {
    let mut p = Program {
        functions: vec![func("main", vec![cint("x", 1), jump("l"), label("l"), cint("y", 1)])],
    };
    run_lvn(&mut p).expect("all operands are bound");
    let expected = vec![cint("x", 1), jump("l"), label("l"), vid("y", "x")];
    assert_eq!(p.functions[0].instrs, expected);
}

#[test]
fn lvn_leaves_effect_arguments_alone() {
    let mut p = Program {
        functions: vec![func("main", vec![cint("x", 1), cint("y", 1), print("y")])],
    };
    run_lvn(&mut p).expect("all operands are bound");
    let expected = vec![cint("x", 1), vid("y", "x"), print("y")];
    assert_eq!(p.functions[0].instrs, expected);
}

#[test]
fn lvn_unbound_operand_is_fatal_and_leaves_program_alone() {
    let mut p = Program {
        functions: vec![func("main", vec![vop(ValueOp::Add, "c", vec!["x", "y"])])],
    };
    let before = vec![vop(ValueOp::Add, "c", vec!["x", "y"])];
    assert_eq!(run_lvn(&mut p), Err(LVNError::UnboundArg));
    assert_eq!(p.functions[0].instrs, before);
}

#[test]
fn lvn_deduplicates_over_formal_parameters() {
    let mut p = Program {
        functions: vec![Function {
            name: "main".to_string(),
            args: vec![
                iropt::ir::Argument { name: "a".to_string(), arg_type: Type::Int },
                iropt::ir::Argument { name: "b".to_string(), arg_type: Type::Int },
            ],
            return_type: Some(Type::Int),
            instrs: vec![
                vop(ValueOp::Add, "c", vec!["b", "a"]),
                vop(ValueOp::Add, "d", vec!["a", "b"]),
            ],
        }],
    };
    let d = resolve(&p);
    let mut t = fresh_table();
    t.global_lvn(&mut p, &d).expect("all operands are bound");
    // the operand lists are permutations of one another, so the second
    // addition collapses to an identity assignment; formal parameters keep
    // their own names
    assert_eq!(p.functions[0].instrs[0], vop(ValueOp::Add, "c", vec!["b", "a"]));
    assert_eq!(p.functions[0].instrs[1], vid("d", "c"));
    assert_eq!(p.functions[0].return_type, Some(Type::Int));
}

#[test]
fn lvn_formal_parameters_pass_through() {
    let table = LVNTable {
        remaps: vec![("x".to_string(), 0)],
        exprs: vec![],
        entries: vec![iropt::lvn::LVNEntry { name: "x0".to_string() }],
        args: vec!["a".to_string()],
    };
    assert_eq!(table.get_remapped_arg(&"a".to_string()), "a".to_string());
    assert_eq!(table.get_remapped_arg(&"x".to_string()), "x0".to_string());

    let instr = Instruction::Value {
        op: ValueOp::Add,
        dest: "c".to_string(),
        op_type: Type::Int,
        args: vec!["a".to_string(), "x".to_string()],
        funcs: vec![],
        labels: vec![],
    };
    let rv = table.instr_to_rval(&instr).expect("a value instruction has a key");
    assert_eq!(
        rv,
        Rval::Value(
            ValueOp::Add,
            vec![ValueArg::Remapped(0), ValueArg::Arg("a".to_string())],
            vec![],
        )
    );
}
