use vstd::prelude::*;

verus! {

/// The primitive types a value in the IR can have.
#[derive(Clone, Copy, Debug, PartialEq, Eq, Structural)]
pub enum Type {
    Int,
    Bool,
    Float,
    Char,
}

/// A literal constant. A floating-point constant is carried as its IEEE-754
/// bit pattern, so the library itself never computes with floats.
#[derive(Clone, Copy, Debug, PartialEq, Eq, Structural)]
pub enum Literal {
    Int(i64),
    Bool(bool),
    Float(u64),
    Char(char),
}

/// Operations that produce a value.
#[derive(Clone, Copy, Debug, PartialEq, Eq, Structural)]
pub enum ValueOp {
    Add,
    Sub,
    Mul,
    Div,
    Eq,
    Lt,
    Gt,
    Le,
    Ge,
    Not,
    And,
    Or,
    Call,
    Id,
}

/// Operations performed only for their side effect; they produce no value.
#[derive(Clone, Copy, Debug, PartialEq, Eq, Structural)]
pub enum EffectOp {
    Jump,
    Branch,
    Call,
    Return,
    Print,
    Nop,
}

/// One instruction of a function body.
#[allow(inconsistent_fields)]
#[derive(Debug, PartialEq, Eq)]
pub enum Instruction {
    Constant { dest: String, const_type: Type, value: Literal },
    Value {
        op: ValueOp,
        dest: String,
        op_type: Type,
        args: Vec<String>,
        funcs: Vec<String>,
        labels: Vec<String>,
    },
    Effect { op: EffectOp, args: Vec<String>, funcs: Vec<String>, labels: Vec<String> },
}

/// The mathematical image of an `Instruction`: names become character
/// sequences, operand lists become sequences.
#[allow(inconsistent_fields)]
#[verifier::ext_equal]
pub enum InstructionV {
    Constant { dest: Seq<char>, const_type: Type, value: Literal },
    Value {
        op: ValueOp,
        dest: Seq<char>,
        op_type: Type,
        args: Seq<Seq<char>>,
        funcs: Seq<Seq<char>>,
        labels: Seq<Seq<char>>,
    },
    Effect { op: EffectOp, args: Seq<Seq<char>>, funcs: Seq<Seq<char>>, labels: Seq<Seq<char>> },
}

impl View for Instruction {
    type V = InstructionV;

    open spec fn view(&self) -> InstructionV {
        match self {
            Instruction::Constant { dest, const_type, value } => InstructionV::Constant {
                dest: dest@,
                const_type: *const_type,
                value: *value,
            },
            Instruction::Value { op, dest, op_type, args, funcs, labels } => InstructionV::Value {
                op: *op,
                dest: dest@,
                op_type: *op_type,
                args: args.deep_view(),
                funcs: funcs.deep_view(),
                labels: labels.deep_view(),
            },
            Instruction::Effect { op, args, funcs, labels } => InstructionV::Effect {
                op: *op,
                args: args.deep_view(),
                funcs: funcs.deep_view(),
                labels: labels.deep_view(),
            },
        }
    }
}

impl DeepView for Instruction {
    type V = InstructionV;

    open spec fn deep_view(&self) -> InstructionV {
        self.view()
    }
}

/// One slot of a function body: a label or an instruction. Labels occupy an
/// index of the sequence just as instructions do.
#[derive(Debug, PartialEq, Eq)]
pub enum Code {
    Label { label: String },
    Instruction(Instruction),
}

/// The mathematical image of a `Code` item.
#[verifier::ext_equal]
pub enum CodeV {
    Label { label: Seq<char> },
    Instruction(InstructionV),
}

impl View for Code {
    type V = CodeV;

    open spec fn view(&self) -> CodeV {
        match self {
            Code::Label { label } => CodeV::Label { label: label@ },
            Code::Instruction(i) => CodeV::Instruction(i@),
        }
    }
}

impl DeepView for Code {
    type V = CodeV;

    open spec fn deep_view(&self) -> CodeV {
        self.view()
    }
}

/// A formal parameter of a function.
#[derive(Debug, PartialEq, Eq)]
pub struct Argument {
    pub name: String,
    pub arg_type: Type,
}

/// The mathematical image of an `Argument`.
#[verifier::ext_equal]
pub struct ArgumentV {
    pub name: Seq<char>,
    pub arg_type: Type,
}

impl View for Argument {
    type V = ArgumentV;

    open spec fn view(&self) -> ArgumentV {
        ArgumentV { name: self.name@, arg_type: self.arg_type }
    }
}

impl DeepView for Argument {
    type V = ArgumentV;

    open spec fn deep_view(&self) -> ArgumentV {
        self.view()
    }
}

/// A named function: formal parameters, optional return type, and an ordered
/// body of labels and instructions.
#[derive(Debug, PartialEq, Eq)]
pub struct Function {
    pub name: String,
    pub args: Vec<Argument>,
    pub return_type: Option<Type>,
    pub instrs: Vec<Code>,
}

/// The mathematical image of a `Function`.
#[verifier::ext_equal]
pub struct FunctionV {
    pub name: Seq<char>,
    pub args: Seq<ArgumentV>,
    pub return_type: Option<Type>,
    pub instrs: Seq<CodeV>,
}

impl View for Function {
    type V = FunctionV;

    open spec fn view(&self) -> FunctionV {
        FunctionV {
            name: self.name@,
            args: self.args.deep_view(),
            return_type: self.return_type,
            instrs: self.instrs.deep_view(),
        }
    }
}

impl DeepView for Function {
    type V = FunctionV;

    open spec fn deep_view(&self) -> FunctionV {
        self.view()
    }
}

/// A whole program: an ordered list of functions.
#[derive(Debug, PartialEq, Eq)]
pub struct Program {
    pub functions: Vec<Function>,
}

/// The mathematical image of a `Program`.
#[verifier::ext_equal]
pub struct ProgramV {
    pub functions: Seq<FunctionV>,
}

impl View for Program {
    type V = ProgramV;

    open spec fn view(&self) -> ProgramV {
        ProgramV { functions: self.functions.deep_view() }
    }
}

impl DeepView for Program {
    type V = ProgramV;

    open spec fn deep_view(&self) -> ProgramV {
        self.view()
    }
}

/// Whether a sequence of names contains the given name.
pub fn contains_string(v: &Vec<String>, s: &String) -> (r: bool)
    ensures
        r == v.deep_view().contains(s@),
{
    let mut i: usize = 0;
    while i < v.len()
        invariant
            i <= v.len(),
            forall|j: int| 0 <= j < i ==> v.deep_view()[j] != s@,
        decreases v.len() - i,
    {
        assert(v.deep_view()[i as int] == v@[i as int]@);
        if s.eq(&v[i]) {
            return true;
        }
        i = i + 1;
    }
    assert(forall|j: int| 0 <= j < v.deep_view().len() ==> v.deep_view()[j] != s@);
    false
}

/// Clone a list of names; the mathematical value is unchanged.
pub fn clone_strings(v: &Vec<String>) -> (r: Vec<String>)
    ensures
        r.deep_view() == v.deep_view(),
{
    let mut r: Vec<String> = Vec::new();
    let mut i: usize = 0;
    while i < v.len()
        invariant
            i <= v.len(),
            r.deep_view().len() == i,
            forall|j: int| 0 <= j < i ==> r.deep_view()[j] == v.deep_view()[j],
        decreases v.len() - i,
    {
        r.push(v[i].clone());
        i = i + 1;
    }
    assert(r.deep_view() =~= v.deep_view());
    r
}

/// Clone a formal-parameter list; the mathematical value is unchanged.
pub fn clone_arguments(v: &Vec<Argument>) -> (r: Vec<Argument>)
    ensures
        r.deep_view() == v.deep_view(),
{
    let mut r: Vec<Argument> = Vec::new();
    let mut i: usize = 0;
    while i < v.len()
        invariant
            i <= v.len(),
            r.deep_view().len() == i,
            forall|j: int| 0 <= j < i ==> r.deep_view()[j] == v.deep_view()[j],
        decreases v.len() - i,
    {
        r.push(Argument { name: v[i].name.clone(), arg_type: v[i].arg_type });
        i = i + 1;
    }
    assert(r.deep_view() =~= v.deep_view());
    r
}

/// Clone one instruction; the mathematical value is unchanged.
pub fn clone_instruction(instr: &Instruction) -> (r: Instruction)
    ensures
        r@ == instr@,
{
    match instr {
        Instruction::Constant { dest, const_type, value } => Instruction::Constant {
            dest: dest.clone(),
            const_type: *const_type,
            value: *value,
        },
        Instruction::Value { op, dest, op_type, args, funcs, labels } => Instruction::Value {
            op: *op,
            dest: dest.clone(),
            op_type: *op_type,
            args: clone_strings(args),
            funcs: clone_strings(funcs),
            labels: clone_strings(labels),
        },
        Instruction::Effect { op, args, funcs, labels } => Instruction::Effect {
            op: *op,
            args: clone_strings(args),
            funcs: clone_strings(funcs),
            labels: clone_strings(labels),
        },
    }
}

/// Clone one code item; the mathematical value is unchanged.
pub fn clone_code(c: &Code) -> (r: Code)
    ensures
        r@ == c@,
{
    match c {
        Code::Label { label } => Code::Label { label: label.clone() },
        Code::Instruction(i) => Code::Instruction(clone_instruction(i)),
    }
}

/// Clone a code sequence; the mathematical value is unchanged.
pub fn clone_codes(v: &Vec<Code>) -> (r: Vec<Code>)
    ensures
        r.deep_view() == v.deep_view(),
{
    let mut r: Vec<Code> = Vec::new();
    let mut i: usize = 0;
    while i < v.len()
        invariant
            i <= v.len(),
            r.deep_view().len() == i,
            forall|j: int| 0 <= j < i ==> r.deep_view()[j] == v.deep_view()[j],
        decreases v.len() - i,
    {
        r.push(clone_code(&v[i]));
        i = i + 1;
    }
    assert(r.deep_view() =~= v.deep_view());
    r
}

} // verus!
