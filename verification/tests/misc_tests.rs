use iropt::ir::{Code, EffectOp, Function, Instruction, Literal, Program, Type};
use iropt::mrange::ModifiableCodeRange;
use iropt::varmap::build_var_map;

fn cint(d: &str, v: i64) -> Code {
    Code::Instruction(Instruction::Constant {
        dest: d.to_string(),
        const_type: Type::Int,
        value: Literal::Int(v),
    })
}

fn print(x: &str) -> Code {
    Code::Instruction(Instruction::Effect {
        op: EffectOp::Print,
        args: vec![x.to_string()],
        funcs: vec![],
        labels: vec![],
    })
}

fn func(name: &str, instrs: Vec<Code>) -> Function {
    Function { name: name.to_string(), args: vec![], return_type: None, instrs }
}

#[test]
fn var_map_collects_each_destination_once() {
    let p = Program {
        functions: vec![
            func("main", vec![cint("x", 1), print("x"), cint("y", 2), cint("x", 3)]),
            func("other", vec![cint("z", 4)]),
        ],
    };
    let m = build_var_map(p);
    assert_eq!(m.len(), 2);
    assert_eq!(m[0].0, "main".to_string());
    assert_eq!(m[0].1, vec!["x".to_string(), "y".to_string()]);
    assert_eq!(m[1].0, "other".to_string());
    assert_eq!(m[1].1, vec!["z".to_string()]);
}

#[test]
fn var_map_of_empty_function_is_empty() {
    let p = Program { functions: vec![func("main", vec![print("q")])] };
    let m = build_var_map(p);
    assert_eq!(m.len(), 1);
    assert_eq!(m[0].1, Vec::<String>::new());
}

#[test]
fn mrange_starts_with_every_index() {
    let r = ModifiableCodeRange::from((2, 5));
    assert_eq!(r.rem, vec![2, 3, 4]);
}

#[test]
fn mrange_remove_rel_closes_the_gap() {
    let mut r = ModifiableCodeRange::from((2, 5));
    r.remove_rel(1);
    assert_eq!(r.rem, vec![2, 4]);
}

#[test]
fn mrange_of_empty_interval_is_empty() {
    let r = ModifiableCodeRange::from((3, 3));
    assert_eq!(r.rem, Vec::<usize>::new());
}
