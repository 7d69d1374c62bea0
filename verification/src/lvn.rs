use vstd::prelude::*;
use vstd::string::StrSliceExecFns;

use crate::ir::{
    clone_code, clone_strings, contains_string, Code, CodeV, FunctionV, Instruction, InstructionV,
    Literal, Program, Type, ValueOp,
};
use crate::resolver::{
    assoc_get, assoc_labels, lemma_block_ranges, names_distinct, ranges_view, scan_blocks,
    GlobalData,
};

verus! {

/// A resolved operand of a canonical expression: either a reference to an
/// earlier value-number entry, or a formal parameter of the enclosing
/// function, which is never locally redefined.
#[derive(Debug, PartialEq, Eq)]
pub enum ValueArg {
    Remapped(usize),
    Arg(String),
}

/// The mathematical image of a `ValueArg`.
#[verifier::ext_equal]
pub enum ValueArgV {
    Remapped(int),
    Arg(Seq<char>),
}

impl View for ValueArg {
    type V = ValueArgV;

    open spec fn view(&self) -> ValueArgV {
        match self {
            ValueArg::Remapped(n) => ValueArgV::Remapped(*n as int),
            ValueArg::Arg(s) => ValueArgV::Arg(s@),
        }
    }
}

impl DeepView for ValueArg {
    type V = ValueArgV;

    open spec fn deep_view(&self) -> ValueArgV {
        self.view()
    }
}

/// The canonical key of a computed expression. Constants are keyed by their
/// declared type and a fixed-width bit pattern, so structurally equal
/// constants of one type always compare equal.
#[derive(Debug, PartialEq, Eq)]
pub enum Rval {
    Const { const_type: Type, raw_val: u64 },
    Value(ValueOp, Vec<ValueArg>, Vec<String>),
    Consumer(Vec<usize>),
    NoVal,
}

/// The mathematical image of an `Rval`.
#[verifier::ext_equal]
pub enum RvalV {
    Const { const_type: Type, raw_val: u64 },
    Value(ValueOp, Seq<ValueArgV>, Seq<Seq<char>>),
    Consumer(Seq<int>),
    NoVal,
}

impl View for Rval {
    type V = RvalV;

    open spec fn view(&self) -> RvalV {
        match self {
            Rval::Const { const_type, raw_val } => RvalV::Const {
                const_type: *const_type,
                raw_val: *raw_val,
            },
            Rval::Value(op, args, funcs) => RvalV::Value(
                *op,
                args.deep_view(),
                funcs.deep_view(),
            ),
            Rval::Consumer(v) => RvalV::Consumer(Seq::new(v@.len(), |i: int| v@[i] as int)),
            Rval::NoVal => RvalV::NoVal,
        }
    }
}

impl DeepView for Rval {
    type V = RvalV;

    open spec fn deep_view(&self) -> RvalV {
        self.view()
    }
}

/// The canonical key of a literal: its type tag together with a fixed 64-bit
/// pattern — a signed integer reinterpreted as unsigned, a float by its
/// carried IEEE bits, a character by its code point, a boolean as 0 or 1.
pub open spec fn lit_rval(l: Literal) -> RvalV {
    match l {
        Literal::Int(v) => RvalV::Const { const_type: Type::Int, raw_val: v as u64 },
        Literal::Float(b) => RvalV::Const { const_type: Type::Float, raw_val: b },
        Literal::Char(c) => RvalV::Const { const_type: Type::Char, raw_val: c as u64 },
        Literal::Bool(b) => RvalV::Const {
            const_type: Type::Bool,
            raw_val: if b {
                1u64
            } else {
                0u64
            },
        },
    }
}

impl Rval {
    /// Turn a literal into its canonical constant key.
    pub fn from(value: Literal) -> (r: Rval)
        ensures
            r@ == lit_rval(value),
    {
        let (t, val) = match value {
            Literal::Int(v) => (Type::Int, v as u64),
            Literal::Float(b) => (Type::Float, b),
            Literal::Char(c) => (Type::Char, c as u64),
            Literal::Bool(b) => (
                Type::Bool,
                if b {
                    1u64
                } else {
                    0u64
                },
            ),
        };
        Rval::Const { const_type: t, raw_val: val }
    }

    /// Read a canonical constant key back as a literal; only a constant key
    /// can be read back. A character pattern must be a valid code point.
    pub fn try_into(self) -> (r: Result<Literal, ()>)
        requires
            self@ matches RvalV::Const { const_type, raw_val } && const_type == Type::Char
                ==> is_valid_codepoint(self->Const_raw_val as u32),
        ensures
            r == (match self@ {
                RvalV::Const { const_type, raw_val } => Result::<Literal, ()>::Ok(
                    const_lit(const_type, raw_val),
                ),
                _ => Result::<Literal, ()>::Err(()),
            }),
    {
        if let Rval::Const { const_type: t, raw_val: v } = self {
            return match t {
                Type::Int => Ok(Literal::Int(v as i64)),
                Type::Bool => Ok(Literal::Bool(v != 0)),
                Type::Float => Ok(Literal::Float(v)),
                Type::Char => {
                    match char_from_u32(v as u32) {
                        Option::Some(c) => Ok(Literal::Char(c)),
                        Option::None => {
                            proof {
                                assert(false);
                            }
                            Err(())
                        },
                    }
                },
            };
        }
        Err(())
    }
}

/// The literal a constant key stands for.
pub open spec fn const_lit(t: Type, v: u64) -> Literal {
    match t {
        Type::Int => Literal::Int(v as i64),
        Type::Bool => Literal::Bool(v != 0),
        Type::Float => Literal::Float(v),
        Type::Char => Literal::Char((v as u32) as char),
    }
}

/// Is `v` the code point of some character: not a surrogate, at most 0x10FFFF?
pub open spec fn is_valid_codepoint(v: u32) -> bool {
    v < 0xD800 || (0xE000 <= v && v <= 0x10FFFF)
}

/// Relies on char::from_u32: it returns `Some` exactly on values that are
/// not surrogates and are at most 0x10FFFF, and then the character with that
/// code point.
#[verifier::external_body]
fn char_from_u32(v: u32) -> (r: Option<char>)
    ensures
        r == (if is_valid_codepoint(v) {
            Option::Some(v as char)
        } else {
            Option::None::<char>
        }),
{
    char::from_u32(v)
}

/// Lexicographic order on character sequences by code point; a proper
/// prefix comes first.
pub open spec fn seq_char_le(a: Seq<char>, b: Seq<char>) -> bool
    decreases a.len(),
{
    if a.len() == 0 {
        true
    } else if b.len() == 0 {
        false
    } else if a[0] == b[0] {
        seq_char_le(a.drop_first(), b.drop_first())
    } else {
        (a[0] as u32) < (b[0] as u32)
    }
}

/// Comparing two sequences equal on their first `i` characters comes down to
/// comparing what follows.
proof fn lemma_seq_char_le_skip(a: Seq<char>, b: Seq<char>, i: int)
    requires
        0 <= i <= a.len(),
        i <= b.len(),
        forall|j: int| 0 <= j < i ==> a[j] == b[j],
    ensures
        seq_char_le(a, b) == seq_char_le(a.skip(i), b.skip(i)),
    decreases i,
{
    if i == 0 {
        assert(a.skip(0) =~= a);
        assert(b.skip(0) =~= b);
    } else {
        lemma_seq_char_le_skip(a, b, i - 1);
        assert(a.skip(i - 1)[0] == a[i - 1]);
        assert(b.skip(i - 1)[0] == b[i - 1]);
        assert(a.skip(i - 1).drop_first() =~= a.skip(i));
        assert(b.skip(i - 1).drop_first() =~= b.skip(i));
    }
}

/// Decide the lexicographic order of two names.
fn str_le(a: &String, b: &String) -> (r: bool)
    ensures
        r == seq_char_le(a@, b@),
{
    let la = a.as_str().unicode_len();
    let lb = b.as_str().unicode_len();
    let mut i: usize = 0;
    while i < la && i < lb
        invariant
            la == a@.len(),
            lb == b@.len(),
            i <= la,
            i <= lb,
            forall|j: int| 0 <= j < i ==> a@[j] == b@[j],
        decreases la - i,
    {
        let ca = a.as_str().get_char(i);
        let cb = b.as_str().get_char(i);
        if ca != cb {
            proof {
                lemma_seq_char_le_skip(a@, b@, i as int);
                assert(a@.skip(i as int)[0] == a@[i as int]);
                assert(b@.skip(i as int)[0] == b@[i as int]);
            }
            return (ca as u32) < (cb as u32);
        }
        i = i + 1;
    }
    proof {
        lemma_seq_char_le_skip(a@, b@, i as int);
    }
    la <= lb
}

/// The canonical order of resolved operands: entry references in numeric
/// order come before formal parameters in name order.
pub open spec fn va_le(x: ValueArgV, y: ValueArgV) -> bool {
    match (x, y) {
        (ValueArgV::Remapped(va), ValueArgV::Remapped(vb)) => va <= vb,
        (ValueArgV::Remapped(_), ValueArgV::Arg(_)) => true,
        (ValueArgV::Arg(_), ValueArgV::Remapped(_)) => false,
        (ValueArgV::Arg(s), ValueArgV::Arg(t)) => seq_char_le(s, t),
    }
}

/// Decide the canonical order of two resolved operands.
fn value_arg_le(x: &ValueArg, y: &ValueArg) -> (r: bool)
    ensures
        r == va_le(x@, y@),
{
    match (x, y) {
        (ValueArg::Remapped(va), ValueArg::Remapped(vb)) => va <= vb,
        (ValueArg::Remapped(_), ValueArg::Arg(_)) => true,
        (ValueArg::Arg(_), ValueArg::Remapped(_)) => false,
        (ValueArg::Arg(s), ValueArg::Arg(t)) => str_le(s, t),
    }
}

/// `x` placed before the first element of the sorted list `s` that does not
/// come before it.
pub open spec fn insert_sorted(x: ValueArgV, s: Seq<ValueArgV>) -> Seq<ValueArgV>
    decreases s.len(),
{
    if s.len() == 0 {
        seq![x]
    } else if va_le(x, s[0]) {
        seq![x] + s
    } else {
        seq![s[0]] + insert_sorted(x, s.drop_first())
    }
}

/// The sorted image of an operand list: each element inserted in turn.
pub open spec fn sort_args(s: Seq<ValueArgV>) -> Seq<ValueArgV>
    decreases s.len(),
{
    if s.len() == 0 {
        Seq::empty()
    } else {
        insert_sorted(s.last(), sort_args(s.drop_last()))
    }
}

/// Inserting at the position the order picks is what `insert_sorted` does.
proof fn lemma_insert_sorted_at(x: ValueArgV, s: Seq<ValueArgV>, idx: int)
    requires
        0 <= idx <= s.len(),
        forall|j: int| 0 <= j < idx ==> !va_le(x, #[trigger] s[j]),
        idx < s.len() ==> va_le(x, s[idx]),
    ensures
        insert_sorted(x, s) == s.insert(idx, x),
    decreases idx,
{
    if idx == 0 {
        if s.len() == 0 {
            assert(insert_sorted(x, s) =~= s.insert(0, x));
        } else {
            assert(seq![x] + s =~= s.insert(0, x));
        }
    } else {
        assert(!va_le(x, s[0]));
        lemma_insert_sorted_at(x, s.drop_first(), idx - 1);
        assert(seq![s[0]] + s.drop_first().insert(idx - 1, x) =~= s.insert(idx, x));
    }
}

/// Clone one resolved operand; the mathematical value is unchanged.
fn clone_value_arg(x: &ValueArg) -> (r: ValueArg)
    ensures
        r@ == x@,
{
    match x {
        ValueArg::Remapped(n) => ValueArg::Remapped(*n),
        ValueArg::Arg(s) => ValueArg::Arg(s.clone()),
    }
}

/// Sort an operand list into the canonical order.
fn sort_value_args(v: &Vec<ValueArg>) -> (r: Vec<ValueArg>)
    ensures
        r.deep_view() == sort_args(v.deep_view()),
{
    let mut acc: Vec<ValueArg> = Vec::new();
    proof {
        assert(acc.deep_view() =~= sort_args(v.deep_view().take(0)));
    }
    let mut k: usize = 0;
    while k < v.len()
        invariant
            k <= v.len(),
            acc.deep_view() == sort_args(v.deep_view().take(k as int)),
        decreases v.len() - k,
    {
        proof {
            assert(v.deep_view().take(k + 1).drop_last() =~= v.deep_view().take(k as int));
            assert(v.deep_view().take(k + 1).last() == v.deep_view()[k as int]);
            assert(v.deep_view()[k as int] == v@[k as int]@);
        }
        let x = clone_value_arg(&v[k]);
        let ghost pre = acc.deep_view();
        let mut idx: usize = 0;
        while idx < acc.len() && !value_arg_le(&x, &acc[idx])
            invariant
                idx <= acc@.len(),
                pre == acc.deep_view(),
                x@ == v.deep_view()[k as int],
                forall|j: int| 0 <= j < idx ==> !va_le(x@, #[trigger] acc.deep_view()[j]),
            decreases acc@.len() - idx,
        {
            proof {
                assert(acc.deep_view()[idx as int] == acc@[idx as int]@);
            }
            idx = idx + 1;
        }
        proof {
            if (idx as int) < acc.deep_view().len() {
                assert(acc.deep_view()[idx as int] == acc@[idx as int]@);
            }
            lemma_insert_sorted_at(x@, pre, idx as int);
        }
        acc.insert(idx, x);
        proof {
            assert(acc.deep_view() =~= pre.insert(idx as int, v.deep_view()[k as int]));
        }
        k = k + 1;
    }
    proof {
        assert(v.deep_view().take(v@.len() as int) =~= v.deep_view());
    }
    acc
}

/// LVN constant canonicality: two literals have the same canonical constant
/// key exactly when they are the same literal — so equal constants of one
/// type share a key whatever their order, while keys of different types stay
/// distinct even when their bit patterns coincide.
pub proof fn lemma_const_canonical(a: Literal, b: Literal)
    ensures
        (lit_rval(a) == lit_rval(b)) <==> (a == b),
{
    match (a, b) {
        (Literal::Int(v1), Literal::Int(v2)) => {
            assert((v1 as u64 == v2 as u64) ==> v1 == v2) by (bit_vector);
        },
        (Literal::Char(c1), Literal::Char(c2)) => {
            if lit_rval(a) == lit_rval(b) {
                assert(c1 as u64 == c2 as u64);
                assert(c1 == c2);
            }
        },
        _ => {},
    }
}

/// Errors that end a value-numbering run; the run is abandoned at once.
#[derive(Clone, Copy, Debug, PartialEq, Eq, Structural)]
pub enum LVNError {
    /// An instruction consumes a name that is neither a formal parameter
    /// nor bound by an earlier definition.
    UnboundArg,
}

/// One canonical value record: the symbolic name currently bound to it. Its
/// entry number is its position in the table's entry list.
#[derive(Debug, PartialEq, Eq)]
pub struct LVNEntry {
    pub name: String,
}

/// Scratch state of one value-numbering run: variable names bound to entry
/// numbers, canonical expressions already computed, the entries in
/// assignment order, and the enclosing function's formal-parameter names.
/// The state is deliberately not reset between basic blocks, nor between
/// functions, within one run.
#[derive(Debug)]
pub struct LVNTable {
    pub remaps: Vec<(String, usize)>,
    pub exprs: Vec<(Rval, usize)>,
    pub entries: Vec<LVNEntry>,
    pub args: Vec<String>,
}

/// The mathematical image of a value-numbering state.
#[verifier::ext_equal]
pub ghost struct LVNState {
    pub remaps: Map<Seq<char>, int>,
    pub exprs: Map<RvalV, int>,
    pub entries: Seq<Seq<char>>,
    pub args: Seq<Seq<char>>,
}

/// An (expression, index) association list read as a map; a later entry wins.
pub open spec fn assoc_exprs(s: Seq<(Rval, usize)>) -> Map<RvalV, int>
    decreases s.len(),
{
    if s.len() == 0 {
        Map::empty()
    } else {
        assoc_exprs(s.drop_last()).insert(s.last().0@, s.last().1 as int)
    }
}

/// The names of an entry list, in order.
pub open spec fn entries_view(s: Seq<LVNEntry>) -> Seq<Seq<char>> {
    Seq::new(s.len(), |i: int| s[i].name@)
}

impl Default for LVNTable {
    /// A fresh table: nothing bound, nothing cached, no entries, no formal
    /// parameters.
    fn default() -> (r: LVNTable)
        ensures
            r@ == (LVNState {
                remaps: Map::empty(),
                exprs: Map::empty(),
                entries: Seq::empty(),
                args: Seq::empty(),
            }),
            r.wf(),
    {
        let r = LVNTable { remaps: Vec::new(), exprs: Vec::new(), entries: Vec::new(), args: Vec::new() };
        proof {
            assert(r@ =~= (LVNState {
                remaps: Map::empty(),
                exprs: Map::empty(),
                entries: Seq::empty(),
                args: Seq::empty(),
            }));
        }
        r
    }
}

impl View for LVNTable {
    type V = LVNState;

    open spec fn view(&self) -> LVNState {
        LVNState {
            remaps: assoc_labels(self.remaps@),
            exprs: assoc_exprs(self.exprs@),
            entries: entries_view(self.entries@),
            args: self.args.deep_view(),
        }
    }
}

/// Every bound entry number points into the entry list.
pub open spec fn state_wf(st: LVNState) -> bool {
    &&& forall|a: Seq<char>|
        #[trigger] st.remaps.contains_key(a) ==> 0 <= st.remaps[a] < st.entries.len()
    &&& forall|r: RvalV| #[trigger] st.exprs.contains_key(r) ==> 0 <= st.exprs[r] < st.entries.len()
}

/// Can the name be resolved: a formal parameter, or bound to an entry?
pub open spec fn arg_ok(st: LVNState, a: Seq<char>) -> bool {
    st.args.contains(a) || st.remaps.contains_key(a)
}

/// The canonical operand a name resolves to: formal parameters stand for
/// themselves, anything else refers to its bound entry.
pub open spec fn resolve_arg(st: LVNState, a: Seq<char>) -> ValueArgV {
    if st.args.contains(a) {
        ValueArgV::Arg(a)
    } else {
        ValueArgV::Remapped(st.remaps[a])
    }
}

/// Each operand of a list resolved in turn.
pub open spec fn resolve_args(st: LVNState, args: Seq<Seq<char>>) -> Seq<ValueArgV> {
    Seq::new(args.len(), |k: int| resolve_arg(st, args[k]))
}

/// The symbolic name a name is rewritten to: formal parameters pass through,
/// anything else becomes the name bound to its entry.
pub open spec fn remapped_name(st: LVNState, a: Seq<char>) -> Seq<char> {
    if st.args.contains(a) {
        a
    } else {
        st.entries[st.remaps[a]]
    }
}

/// Each operand name of a list rewritten in turn.
pub open spec fn remapped_names(st: LVNState, args: Seq<Seq<char>>) -> Seq<Seq<char>> {
    Seq::new(args.len(), |k: int| remapped_name(st, args[k]))
}

/// Can every operand of the instruction be resolved?
pub open spec fn instr_args_ok(st: LVNState, i: InstructionV) -> bool {
    match i {
        InstructionV::Value { args, .. } => forall|k: int|
            0 <= k < args.len() ==> arg_ok(st, #[trigger] args[k]),
        _ => true,
    }
}

/// Can every operand of the code item be resolved?
pub open spec fn code_args_ok(st: LVNState, c: CodeV) -> bool {
    match c {
        CodeV::Instruction(i) => instr_args_ok(st, i),
        CodeV::Label { .. } => true,
    }
}

/// The canonical expression key of an instruction, if it computes a value: a
/// constant's literal key, or an operation over its resolved operands in
/// canonical order together with its callee list.
pub open spec fn spec_instr_rval(st: LVNState, i: InstructionV) -> Option<RvalV> {
    match i {
        InstructionV::Constant { value, .. } => Option::Some(lit_rval(value)),
        InstructionV::Value { op, args, funcs, .. } => Option::Some(
            RvalV::Value(op, sort_args(resolve_args(st, args)), funcs),
        ),
        InstructionV::Effect { .. } => Option::None,
    }
}

/// One step of value numbering over one code item: what the table becomes,
/// and what is emitted in the item's place.
///
/// A label or effect passes through unchanged. For a constant or value
/// instruction, its canonical key is looked up: on a hit, an identity
/// assignment from the hit entry's name is emitted and the destination is
/// bound to that entry; on a miss, a new entry is allocated, the instruction
/// is emitted with its operand names rewritten to their canonical names, and
/// both the key and the destination are bound to the new entry.
pub open spec fn lvn_step(st: LVNState, c: CodeV) -> (LVNState, CodeV) {
    match c {
        CodeV::Instruction(instr) => {
            match instr {
                InstructionV::Constant { dest, const_type, value } => {
                    let rv = lit_rval(value);
                    if st.exprs.contains_key(rv) {
                        let e = st.exprs[rv];
                        (
                            LVNState { remaps: st.remaps.insert(dest, e), ..st },
                            CodeV::Instruction(
                                InstructionV::Value {
                                    op: ValueOp::Id,
                                    dest: dest,
                                    op_type: const_type,
                                    args: seq![st.entries[e]],
                                    funcs: Seq::empty(),
                                    labels: Seq::empty(),
                                },
                            ),
                        )
                    } else {
                        let num = st.entries.len() as int;
                        (
                            LVNState {
                                remaps: st.remaps.insert(dest, num),
                                exprs: st.exprs.insert(rv, num),
                                entries: st.entries.push(dest),
                                args: st.args,
                            },
                            c,
                        )
                    }
                },
                InstructionV::Value { op, dest, op_type, args, funcs, labels } => {
                    let rv = RvalV::Value(op, sort_args(resolve_args(st, args)), funcs);
                    if st.exprs.contains_key(rv) {
                        let e = st.exprs[rv];
                        (
                            LVNState { remaps: st.remaps.insert(dest, e), ..st },
                            CodeV::Instruction(
                                InstructionV::Value {
                                    op: ValueOp::Id,
                                    dest: dest,
                                    op_type: op_type,
                                    args: seq![st.entries[e]],
                                    funcs: Seq::empty(),
                                    labels: Seq::empty(),
                                },
                            ),
                        )
                    } else {
                        let num = st.entries.len() as int;
                        (
                            LVNState {
                                remaps: st.remaps.insert(dest, num),
                                exprs: st.exprs.insert(rv, num),
                                entries: st.entries.push(dest),
                                args: st.args,
                            },
                            CodeV::Instruction(
                                InstructionV::Value {
                                    op: op,
                                    dest: dest,
                                    op_type: op_type,
                                    args: remapped_names(st, args),
                                    funcs: funcs,
                                    labels: labels,
                                },
                            ),
                        )
                    }
                },
                InstructionV::Effect { .. } => (st, c),
            }
        },
        CodeV::Label { .. } => (st, c),
    }
}

/// Every item of the sequence can be processed in turn from this state.
pub open spec fn lvn_ok(st: LVNState, s: Seq<CodeV>) -> bool
    decreases s.len(),
{
    if s.len() == 0 {
        true
    } else {
        code_args_ok(st, s[0]) && lvn_ok(lvn_step(st, s[0]).0, s.drop_first())
    }
}

/// The state after processing the whole sequence.
pub open spec fn lvn_fold_state(st: LVNState, s: Seq<CodeV>) -> LVNState
    decreases s.len(),
{
    if s.len() == 0 {
        st
    } else {
        lvn_fold_state(lvn_step(st, s[0]).0, s.drop_first())
    }
}

/// What processing the whole sequence emits, in order.
pub open spec fn lvn_fold_out(st: LVNState, s: Seq<CodeV>) -> Seq<CodeV>
    decreases s.len(),
{
    if s.len() == 0 {
        Seq::empty()
    } else {
        seq![lvn_step(st, s[0]).1] + lvn_fold_out(lvn_step(st, s[0]).0, s.drop_first())
    }
}

/// The formal-parameter names of a function, in order.
pub open spec fn arg_names(f: FunctionV) -> Seq<Seq<char>> {
    Seq::new(f.args.len(), |i: int| f.args[i].name)
}

/// The state with the formal-parameter name set replaced.
pub open spec fn with_args(st: LVNState, a: Seq<Seq<char>>) -> LVNState {
    LVNState { args: a, ..st }
}

/// Processing a sequence never changes the formal-parameter name set.
proof fn lemma_fold_args(st: LVNState, s: Seq<CodeV>)
    ensures
        lvn_fold_state(st, s).args == st.args,
    decreases s.len(),
{
    if s.len() > 0 {
        lemma_fold_args(lvn_step(st, s[0]).0, s.drop_first());
    }
}

/// The state after processing each block range of a body in order, one
/// table throughout.
pub open spec fn lvn_blocks_state(st: LVNState, instrs: Seq<CodeV>, blocks: Seq<(int, int)>) -> LVNState
    decreases blocks.len(),
{
    if blocks.len() == 0 {
        st
    } else {
        let sub = instrs.subrange(blocks[0].0, blocks[0].1);
        lvn_blocks_state(lvn_fold_state(st, sub), instrs, blocks.drop_first())
    }
}

/// What processing each block range of a body emits, concatenated in block
/// order.
pub open spec fn lvn_blocks_out(st: LVNState, instrs: Seq<CodeV>, blocks: Seq<(int, int)>) -> Seq<
    CodeV,
>
    decreases blocks.len(),
{
    if blocks.len() == 0 {
        Seq::empty()
    } else {
        let sub = instrs.subrange(blocks[0].0, blocks[0].1);
        lvn_fold_out(st, sub) + lvn_blocks_out(lvn_fold_state(st, sub), instrs, blocks.drop_first())
    }
}

/// Every block of the body can be processed in turn.
pub open spec fn lvn_blocks_ok(st: LVNState, instrs: Seq<CodeV>, blocks: Seq<(int, int)>) -> bool
    decreases blocks.len(),
{
    if blocks.len() == 0 {
        true
    } else {
        let sub = instrs.subrange(blocks[0].0, blocks[0].1);
        lvn_ok(st, sub) && lvn_blocks_ok(lvn_fold_state(st, sub), instrs, blocks.drop_first())
    }
}

/// The state after value-numbering one whole function, block by block, with
/// its formal-parameter names installed first.
pub open spec fn lvn_func_state(st: LVNState, f: FunctionV) -> LVNState {
    lvn_blocks_state(with_args(st, arg_names(f)), f.instrs, scan_blocks(f.instrs))
}

/// The instruction sequence value-numbering emits for one whole function.
pub open spec fn lvn_func_out(st: LVNState, f: FunctionV) -> Seq<CodeV> {
    lvn_blocks_out(with_args(st, arg_names(f)), f.instrs, scan_blocks(f.instrs))
}

/// Every block of the function can be processed.
pub open spec fn lvn_func_ok(st: LVNState, f: FunctionV) -> bool {
    lvn_blocks_ok(with_args(st, arg_names(f)), f.instrs, scan_blocks(f.instrs))
}

/// The state after value-numbering a list of functions in order, one table
/// throughout.
pub open spec fn lvn_funcs_state(st: LVNState, fs: Seq<FunctionV>) -> LVNState
    decreases fs.len(),
{
    if fs.len() == 0 {
        st
    } else {
        lvn_funcs_state(lvn_func_state(st, fs[0]), fs.drop_first())
    }
}

/// The instruction sequences value-numbering emits for a list of functions.
pub open spec fn lvn_funcs_outs(st: LVNState, fs: Seq<FunctionV>) -> Seq<Seq<CodeV>>
    decreases fs.len(),
{
    if fs.len() == 0 {
        Seq::empty()
    } else {
        seq![lvn_func_out(st, fs[0])] + lvn_funcs_outs(lvn_func_state(st, fs[0]), fs.drop_first())
    }
}

/// Every function of the list can be processed in turn.
pub open spec fn lvn_funcs_ok(st: LVNState, fs: Seq<FunctionV>) -> bool
    decreases fs.len(),
{
    if fs.len() == 0 {
        true
    } else {
        lvn_func_ok(st, fs[0]) && lvn_funcs_ok(lvn_func_state(st, fs[0]), fs.drop_first())
    }
}

/// Decide whether two name lists are equal.
fn strings_eq(a: &Vec<String>, b: &Vec<String>) -> (r: bool)
    ensures
        r == (a.deep_view() == b.deep_view()),
{
    if a.len() != b.len() {
        proof {
            assert(a.deep_view().len() == a@.len());
            assert(b.deep_view().len() == b@.len());
        }
        return false;
    }
    let mut i: usize = 0;
    while i < a.len()
        invariant
            a@.len() == b@.len(),
            i <= a@.len(),
            forall|j: int| 0 <= j < i ==> a.deep_view()[j] == b.deep_view()[j],
        decreases a@.len() - i,
    {
        proof {
            assert(a.deep_view()[i as int] == a@[i as int]@);
            assert(b.deep_view()[i as int] == b@[i as int]@);
        }
        if !a[i].eq(&b[i]) {
            proof {
                assert(a.deep_view()[i as int] != b.deep_view()[i as int]);
            }
            return false;
        }
        i = i + 1;
    }
    proof {
        assert(a.deep_view() =~= b.deep_view());
    }
    true
}

/// Decide whether two resolved operands are equal.
fn value_arg_eq(x: &ValueArg, y: &ValueArg) -> (r: bool)
    ensures
        r == (x@ == y@),
{
    match (x, y) {
        (ValueArg::Remapped(a), ValueArg::Remapped(b)) => a == b,
        (ValueArg::Arg(s), ValueArg::Arg(t)) => s.eq(t),
        _ => false,
    }
}

/// Decide whether two resolved-operand lists are equal.
fn value_args_eq(a: &Vec<ValueArg>, b: &Vec<ValueArg>) -> (r: bool)
    ensures
        r == (a.deep_view() == b.deep_view()),
{
    if a.len() != b.len() {
        proof {
            assert(a.deep_view().len() == a@.len());
            assert(b.deep_view().len() == b@.len());
        }
        return false;
    }
    let mut i: usize = 0;
    while i < a.len()
        invariant
            a@.len() == b@.len(),
            i <= a@.len(),
            forall|j: int| 0 <= j < i ==> a.deep_view()[j] == b.deep_view()[j],
        decreases a@.len() - i,
    {
        proof {
            assert(a.deep_view()[i as int] == a@[i as int]@);
            assert(b.deep_view()[i as int] == b@[i as int]@);
        }
        if !value_arg_eq(&a[i], &b[i]) {
            proof {
                assert(a.deep_view()[i as int] != b.deep_view()[i as int]);
            }
            return false;
        }
        i = i + 1;
    }
    proof {
        assert(a.deep_view() =~= b.deep_view());
    }
    true
}

/// Decide whether two index lists are equal.
fn indices_eq(a: &Vec<usize>, b: &Vec<usize>) -> (r: bool)
    ensures
        r == (Seq::new(a@.len(), |i: int| a@[i] as int) == Seq::new(
            b@.len(),
            |i: int| b@[i] as int,
        )),
{
    if a.len() != b.len() {
        proof {
            assert(Seq::new(a@.len(), |i: int| a@[i] as int).len() != Seq::new(
                b@.len(),
                |i: int| b@[i] as int,
            ).len());
        }
        return false;
    }
    let mut i: usize = 0;
    while i < a.len()
        invariant
            a@.len() == b@.len(),
            i <= a@.len(),
            forall|j: int| 0 <= j < i ==> a@[j] == b@[j],
        decreases a@.len() - i,
    {
        if a[i] != b[i] {
            proof {
                assert(Seq::new(a@.len(), |k: int| a@[k] as int)[i as int] != Seq::new(
                    b@.len(),
                    |k: int| b@[k] as int,
                )[i as int]);
            }
            return false;
        }
        i = i + 1;
    }
    proof {
        assert(Seq::new(a@.len(), |k: int| a@[k] as int) =~= Seq::new(
            b@.len(),
            |k: int| b@[k] as int,
        ));
    }
    true
}

/// Decide whether two canonical expression keys are equal.
fn rval_eq(a: &Rval, b: &Rval) -> (r: bool)
    ensures
        r == (a@ == b@),
{
    match (a, b) {
        (
            Rval::Const { const_type: t1, raw_val: v1 },
            Rval::Const { const_type: t2, raw_val: v2 },
        ) => *t1 == *t2 && *v1 == *v2,
        (Rval::Value(o1, a1, f1), Rval::Value(o2, a2, f2)) => {
            let r = *o1 == *o2 && value_args_eq(a1, a2) && strings_eq(f1, f2);
            proof {
                if r {
                    assert(a@ =~= b@);
                }
            }
            r
        },
        (Rval::Consumer(v1), Rval::Consumer(v2)) => {
            let r = indices_eq(v1, v2);
            proof {
                if r {
                    assert(a@ =~= b@);
                }
            }
            r
        },
        (Rval::NoVal, Rval::NoVal) => true,
        _ => false,
    }
}

/// Look an expression key up in the cache, later entries first, so the
/// result is exactly what the map image of the cache holds.
fn expr_get(v: &Vec<(Rval, usize)>, k: &Rval) -> (r: Option<usize>)
    ensures
        match r {
            Option::None => !assoc_exprs(v@).contains_key(k@),
            Option::Some(n) => assoc_exprs(v@).contains_key(k@) && assoc_exprs(v@)[k@] == n as int,
        },
{
    let ghost full = v@;
    let mut i: usize = v.len();
    proof {
        assert(full.take(i as int) =~= full);
    }
    while i > 0
        invariant
            i <= v.len(),
            full == v@,
            assoc_exprs(full).contains_key(k@) == assoc_exprs(full.take(i as int)).contains_key(k@),
            assoc_exprs(full).contains_key(k@) ==> assoc_exprs(full)[k@] == assoc_exprs(
                full.take(i as int),
            )[k@],
        decreases i,
    {
        i = i - 1;
        proof {
            assert(full.take(i + 1).drop_last() =~= full.take(i as int));
            assert(full.take(i + 1).last() == full[i as int]);
        }
        if rval_eq(&v[i].0, k) {
            return Some(v[i].1);
        }
    }
    proof {
        assert(full.take(0) =~= Seq::<(Rval, usize)>::empty());
    }
    None
}

impl LVNTable {
    /// Every entry number the table binds points into its entry list.
    pub open spec fn wf(self) -> bool {
        state_wf(self@)
    }

    /// The canonical name a variable is rewritten to: a formal parameter
    /// passes through unchanged; any other name must already be bound, and
    /// becomes the name of its entry.
    pub fn get_remapped_arg(&self, argname: &String) -> (r: String)
        requires
            self.wf(),
            arg_ok(self@, argname@),
        ensures
            r@ == remapped_name(self@, argname@),
    {
        if contains_string(&self.args, argname) {
            return argname.clone();
        }
        match assoc_get(&self.remaps, argname) {
            Option::Some(e) => {
                proof {
                    assert((e as int) < entries_view(self.entries@).len());
                    assert(entries_view(self.entries@)[e as int] == self.entries@[e as int].name@);
                }
                self.entries[e].name.clone()
            },
            Option::None => {
                proof {
                    assert(false);
                }
                argname.clone()
            },
        }
    }

    /// Rewrite one basic block, given as an index range into a body, with
    /// `args` the enclosing function's formal-parameter names. Each constant
    /// or value instruction already computed is replaced by an identity
    /// assignment from the earlier entry's name; a fresh one is emitted with
    /// its operands rewritten to their canonical names. Labels and effect
    /// instructions pass through unchanged. The table carries over from
    /// whatever was processed before: it is not reset between blocks. An
    /// operand that is neither a formal parameter nor bound by an earlier
    /// definition is a fatal error.
    pub fn populate(&mut self, r: &(usize, usize), instrs: &Vec<Code>, args: Vec<String>) -> (res:
        Result<Vec<Code>, LVNError>)
        requires
            old(self).wf(),
            r.0 <= r.1,
            r.1 <= instrs@.len(),
        ensures
            final(self).wf(),
            ({
                let st0 = LVNState { args: args.deep_view(), ..old(self)@ };
                let s = instrs.deep_view().subrange(r.0 as int, r.1 as int);
                match res {
                    Result::Ok(out) => {
                        &&& lvn_ok(st0, s)
                        &&& final(self)@ == lvn_fold_state(st0, s)
                        &&& out.deep_view() == lvn_fold_out(st0, s)
                    },
                    Result::Err(e) => {
                        &&& e == LVNError::UnboundArg
                        &&& !lvn_ok(st0, s)
                    },
                }
            }),
    {
        let ghost st0 = LVNState { args: args.deep_view(), ..old(self)@ };
        let ghost s = instrs.deep_view().subrange(r.0 as int, r.1 as int);
        self.args = args;
        proof {
            assert(self@ =~= st0);
        }
        let mut out: Vec<Code> = Vec::new();
        let end = r.1;
        let mut idx: usize = r.0;
        proof {
            assert(s.skip(0) =~= s);
            assert(out.deep_view() =~= Seq::<CodeV>::empty());
            assert(Seq::<CodeV>::empty() + lvn_fold_out(self@, s) =~= lvn_fold_out(self@, s));
        }
        while idx < end
            invariant
                end == r.1,
                r.0 <= idx <= r.1,
                r.1 <= instrs@.len(),
                s == instrs.deep_view().subrange(r.0 as int, r.1 as int),
                st0 == (LVNState { args: args.deep_view(), ..old(self)@ }),
                self.wf(),
                lvn_ok(st0, s) == lvn_ok(self@, s.skip(idx - r.0)),
                lvn_fold_state(st0, s) == lvn_fold_state(self@, s.skip(idx - r.0)),
                lvn_fold_out(st0, s) == out.deep_view() + lvn_fold_out(self@, s.skip(idx - r.0)),
            decreases end - idx,
        {
            let ghost k = idx - r.0;
            let ghost stc = self@;
            proof {
                assert(s[k] == instrs.deep_view()[idx as int]);
                assert(instrs.deep_view()[idx as int] == instrs@[idx as int]@);
                assert(s.skip(k)[0] == s[k]);
                assert(s.skip(k).drop_first() =~= s.skip(k + 1));
            }
            let ghost prev_out = out.deep_view();
            match &instrs[idx] {
                Code::Instruction(instr) => {
                    match instr {
                        Instruction::Constant { dest, const_type, value } => {
                            let rv = Rval::from(*value);
                            match expr_get(&self.exprs, &rv) {
                                Option::Some(e) => {
                                    proof {
                                        assert((e as int) < entries_view(self.entries@).len());
                                        assert(entries_view(self.entries@)[e as int]
                                            == self.entries@[e as int].name@);
                                    }
                                    let nm = self.entries[e].name.clone();
                                    let new_instr = Instruction::Value {
                                        op: ValueOp::Id,
                                        dest: dest.clone(),
                                        op_type: *const_type,
                                        args: vec![nm],
                                        funcs: Vec::new(),
                                        labels: Vec::new(),
                                    };
                                    out.push(Code::Instruction(new_instr));
                                    let ghost pre_remaps = self.remaps@;
                                    self.remaps.push((dest.clone(), e));
                                    proof {
                                        assert(self.remaps@.drop_last() =~= pre_remaps);
                                        assert(self@ =~= lvn_step(stc, s[k]).0);
                                        assert(out.deep_view() =~~= prev_out.push(
                                            lvn_step(stc, s[k]).1,
                                        ));
                                    }
                                },
                                Option::None => {
                                    let new_instr = crate::ir::clone_instruction(instr);
                                    out.push(Code::Instruction(new_instr));
                                    let num = self.entries.len();
                                    let ghost pre_exprs = self.exprs@;
                                    let ghost pre_entries = self.entries@;
                                    let ghost pre_remaps = self.remaps@;
                                    self.exprs.push((rv, num));
                                    self.entries.push(LVNEntry { name: dest.clone() });
                                    self.remaps.push((dest.clone(), num));
                                    proof {
                                        assert(self.exprs@.drop_last() =~= pre_exprs);
                                        assert(self.remaps@.drop_last() =~= pre_remaps);
                                        assert(entries_view(self.entries@) =~= entries_view(
                                            pre_entries,
                                        ).push(dest@));
                                        assert(self@ =~= lvn_step(stc, s[k]).0);
                                        assert(out.deep_view() =~~= prev_out.push(
                                            lvn_step(stc, s[k]).1,
                                        ));
                                    }
                                },
                            }
                        },
                        Instruction::Value { op, dest, op_type, args: vargs, funcs, labels } => {
                            let nargs = vargs.len();
                            let mut aj: usize = 0;
                            while aj < nargs
                                invariant
                                    nargs == vargs@.len(),
                                    aj <= nargs,
                                    self.wf(),
                                    self@ == stc,
                                    instr@ matches InstructionV::Value { args: a2, .. } && a2
                                        == vargs.deep_view(),
                                    0 <= k < s.len(),
                                    s == instrs.deep_view().subrange(r.0 as int, r.1 as int),
                                    st0 == (LVNState { args: args.deep_view(), ..old(self)@ }),
                                    s[k] == CodeV::Instruction(instr@),
                                    lvn_ok(st0, s) == lvn_ok(stc, s.skip(k)),
                                    s.skip(k)[0] == s[k],
                                    forall|j: int|
                                        0 <= j < aj ==> arg_ok(
                                            stc,
                                            #[trigger] vargs.deep_view()[j],
                                        ),
                                decreases nargs - aj,
                            {
                                proof {
                                    assert(vargs.deep_view()[aj as int] == vargs@[aj as int]@);
                                }
                                let ok_a = contains_string(&self.args, &vargs[aj]);
                                let ok_b = if ok_a {
                                    true
                                } else {
                                    assoc_get(&self.remaps, &vargs[aj]).is_some()
                                };
                                if !ok_a && !ok_b {
                                    proof {
                                        assert(!arg_ok(stc, vargs.deep_view()[aj as int]));
                                        assert(!instr_args_ok(stc, instr@));
                                        assert(!code_args_ok(stc, s[k]));
                                        assert(!lvn_ok(stc, s.skip(k)));
                                        assert(!lvn_ok(st0, s));
                                        assert(state_wf(self@));
                                    }
                                    return Err(LVNError::UnboundArg);
                                }
                                aj = aj + 1;
                            }
                            proof {
                                assert(instr_args_ok(stc, instr@));
                            }
                            let rv = match self.instr_to_rval(instr) {
                                Option::Some(rv) => rv,
                                Option::None => {
                                    proof {
                                        assert(false);
                                    }
                                    Rval::NoVal
                                },
                            };
                            match expr_get(&self.exprs, &rv) {
                                Option::Some(e) => {
                                    proof {
                                        assert((e as int) < entries_view(self.entries@).len());
                                        assert(entries_view(self.entries@)[e as int]
                                            == self.entries@[e as int].name@);
                                    }
                                    let nm = self.entries[e].name.clone();
                                    let new_instr = Instruction::Value {
                                        op: ValueOp::Id,
                                        dest: dest.clone(),
                                        op_type: *op_type,
                                        args: vec![nm],
                                        funcs: Vec::new(),
                                        labels: Vec::new(),
                                    };
                                    out.push(Code::Instruction(new_instr));
                                    let ghost pre_remaps = self.remaps@;
                                    self.remaps.push((dest.clone(), e));
                                    proof {
                                        assert(self.remaps@.drop_last() =~= pre_remaps);
                                        assert(self@ =~= lvn_step(stc, s[k]).0);
                                        assert(out.deep_view() =~~= prev_out.push(
                                            lvn_step(stc, s[k]).1,
                                        ));
                                    }
                                },
                                Option::None => {
                                    let mut new_args: Vec<String> = Vec::new();
                                    let mut aj2: usize = 0;
                                    while aj2 < nargs
                                        invariant
                                            nargs == vargs@.len(),
                                            aj2 <= nargs,
                                            self.wf(),
                                            self@ == stc,
                                            instr@ matches InstructionV::Value { args: a2, .. }
                                                && a2 == vargs.deep_view(),
                                            instr_args_ok(stc, instr@),
                                            new_args.deep_view().len() == aj2,
                                            forall|j: int|
                                                0 <= j < aj2 ==> new_args.deep_view()[j]
                                                    == remapped_name(
                                                    stc,
                                                    vargs.deep_view()[j],
                                                ),
                                        decreases nargs - aj2,
                                    {
                                        proof {
                                            assert(vargs.deep_view()[aj2 as int]
                                                == vargs@[aj2 as int]@);
                                            assert(arg_ok(stc, vargs.deep_view()[aj2 as int]));
                                        }
                                        let ghost prev_na = new_args.deep_view();
                                        let nm = self.get_remapped_arg(&vargs[aj2]);
                                        new_args.push(nm);
                                        proof {
                                            assert(new_args.deep_view() =~= prev_na.push(
                                                remapped_name(stc, vargs.deep_view()[aj2 as int]),
                                            ));
                                        }
                                        aj2 = aj2 + 1;
                                    }
                                    proof {
                                        assert(new_args.deep_view() =~= remapped_names(
                                            stc,
                                            vargs.deep_view(),
                                        ));
                                    }
                                    let new_instr = Instruction::Value {
                                        op: *op,
                                        dest: dest.clone(),
                                        op_type: *op_type,
                                        args: new_args,
                                        funcs: clone_strings(funcs),
                                        labels: clone_strings(labels),
                                    };
                                    out.push(Code::Instruction(new_instr));
                                    let num = self.entries.len();
                                    let ghost pre_exprs = self.exprs@;
                                    let ghost pre_entries = self.entries@;
                                    let ghost pre_remaps = self.remaps@;
                                    self.exprs.push((rv, num));
                                    self.entries.push(LVNEntry { name: dest.clone() });
                                    self.remaps.push((dest.clone(), num));
                                    proof {
                                        assert(self.exprs@.drop_last() =~= pre_exprs);
                                        assert(self.remaps@.drop_last() =~= pre_remaps);
                                        assert(entries_view(self.entries@) =~= entries_view(
                                            pre_entries,
                                        ).push(dest@));
                                        assert(self@ =~= lvn_step(stc, s[k]).0);
                                        assert(out.deep_view() =~~= prev_out.push(
                                            lvn_step(stc, s[k]).1,
                                        ));
                                    }
                                },
                            }
                        },
                        Instruction::Effect { .. } => {
                            out.push(clone_code(&instrs[idx]));
                            proof {
                                assert(lvn_step(stc, s[k]).0 == stc);
                                assert(lvn_step(stc, s[k]).1 == s[k]);
                                assert(out.deep_view() =~= prev_out.push(lvn_step(stc, s[k]).1));
                            }
                        },
                    }
                },
                Code::Label { .. } => {
                    out.push(clone_code(&instrs[idx]));
                    proof {
                        assert(lvn_step(stc, s[k]).0 == stc);
                        assert(lvn_step(stc, s[k]).1 == s[k]);
                        assert(out.deep_view() =~= prev_out.push(lvn_step(stc, s[k]).1));
                    }
                },
            }
            proof {
                assert(code_args_ok(stc, s[k]));
                assert(lvn_ok(stc, s.skip(k)) == lvn_ok(self@, s.skip(k + 1)));
                assert(lvn_fold_state(stc, s.skip(k)) == lvn_fold_state(self@, s.skip(k + 1)));
                assert(lvn_fold_out(stc, s.skip(k)) =~= seq![lvn_step(stc, s[k]).1]
                    + lvn_fold_out(self@, s.skip(k + 1)));
                assert(prev_out + lvn_fold_out(stc, s.skip(k)) =~= out.deep_view() + lvn_fold_out(
                    self@,
                    s.skip(k + 1),
                ));
            }
            idx = idx + 1;
        }
        proof {
            assert(s.skip((r.1 - r.0) as int) =~= Seq::<CodeV>::empty());
            assert(out.deep_view() + lvn_fold_out(self@, Seq::<CodeV>::empty()) =~= out.deep_view());
        }
        Ok(out)
    }

    /// The canonical expression key of an instruction, if it computes a
    /// value: operands are resolved against the table and sorted into the
    /// canonical order.
    pub fn instr_to_rval(&self, instr: &Instruction) -> (r: Option<Rval>)
        requires
            self.wf(),
            instr_args_ok(self@, instr@),
        ensures
            match r {
                Option::Some(rv) => spec_instr_rval(self@, instr@) == Option::Some(rv@),
                Option::None => spec_instr_rval(self@, instr@) is None,
            },
    {
        match instr {
            Instruction::Constant { value, .. } => Some(Rval::from(*value)),
            Instruction::Value { args, funcs, op, .. } => {
                let ghost argsv = args.deep_view();
                let mut mapped: Vec<ValueArg> = Vec::new();
                let mut k: usize = 0;
                while k < args.len()
                    invariant
                        self.wf(),
                        instr_args_ok(self@, instr@),
                        argsv == args.deep_view(),
                        instr@ matches InstructionV::Value { args: a2, .. } && a2 == argsv,
                        k <= args@.len(),
                        mapped.deep_view().len() == k,
                        forall|j: int|
                            0 <= j < k ==> mapped.deep_view()[j] == resolve_arg(self@, argsv[j]),
                    decreases args@.len() - k,
                {
                    proof {
                        assert(argsv[k as int] == args@[k as int]@);
                        assert(arg_ok(self@, argsv[k as int]));
                    }
                    let ghost prev = mapped.deep_view();
                    if contains_string(&self.args, &args[k]) {
                        mapped.push(ValueArg::Arg(args[k].clone()));
                    } else {
                        match assoc_get(&self.remaps, &args[k]) {
                            Option::Some(e) => {
                                mapped.push(ValueArg::Remapped(e));
                            },
                            Option::None => {
                                proof {
                                    assert(false);
                                }
                                mapped.push(ValueArg::Remapped(0));
                            },
                        }
                    }
                    proof {
                        assert(mapped.deep_view() =~= prev.push(resolve_arg(self@, argsv[k as int])));
                    }
                    k = k + 1;
                }
                proof {
                    assert(mapped.deep_view() =~= resolve_args(self@, argsv));
                }
                let sorted = sort_value_args(&mapped);
                let r = Rval::Value(*op, sorted, clone_strings(funcs));
                proof {
                    assert(r@ =~= RvalV::Value(
                        *op,
                        sort_args(resolve_args(self@, argsv)),
                        funcs.deep_view(),
                    ));
                }
                Some(r)
            },
            Instruction::Effect { .. } => None,
        }
    }
}

impl LVNTable {
    /// Value-number every function of the program, block by block in block
    /// order, carrying one table across blocks and functions alike, and
    /// replace each function's body with what was emitted for it. On a fatal
    /// unbound operand nothing is replaced: the program is left as it was.
    pub fn global_lvn(&mut self, p: &mut Program, d: &GlobalData) -> (res: Result<(), LVNError>)
        requires
            old(self).wf(),
            d.wf_resolved(old(p)@),
            names_distinct(old(p)@),
        ensures
            final(self).wf(),
            match res {
                Result::Ok(()) => {
                    &&& lvn_funcs_ok(old(self)@, old(p)@.functions)
                    &&& final(self)@ == lvn_funcs_state(old(self)@, old(p)@.functions)
                    &&& final(p)@.functions.len() == old(p)@.functions.len()
                    &&& forall|i: int|
                        0 <= i < old(p)@.functions.len() ==> (#[trigger] final(p)@.functions[i])
                            == (FunctionV {
                            instrs: lvn_funcs_outs(old(self)@, old(p)@.functions)[i],
                            ..old(p)@.functions[i]
                        })
                },
                Result::Err(e) => {
                    &&& e == LVNError::UnboundArg
                    &&& !lvn_funcs_ok(old(self)@, old(p)@.functions)
                    &&& final(p)@ == old(p)@
                },
            },
    {
        let ghost st_init = old(self)@;
        let ghost fs = old(p)@.functions;
        let n = p.functions.len();
        let mut outs: Vec<Vec<Code>> = Vec::new();
        let mut fno: usize = 0;
        proof {
            assert(fs.skip(0) =~= fs);
            assert(outs.deep_view() =~= Seq::<Seq<CodeV>>::empty());
            assert(Seq::<Seq<CodeV>>::empty() + lvn_funcs_outs(self@, fs) =~= lvn_funcs_outs(
                self@,
                fs,
            ));
        }
        while fno < n
            invariant
                n == p.functions@.len(),
                *p == *old(p),
                fs == old(p)@.functions,
                st_init == old(self)@,
                d.wf_resolved(old(p)@),
                names_distinct(old(p)@),
                self.wf(),
                fno <= n,
                outs@.len() == fno,
                lvn_funcs_ok(st_init, fs) == lvn_funcs_ok(self@, fs.skip(fno as int)),
                lvn_funcs_state(st_init, fs) == lvn_funcs_state(self@, fs.skip(fno as int)),
                lvn_funcs_outs(st_init, fs) == outs.deep_view() + lvn_funcs_outs(
                    self@,
                    fs.skip(fno as int),
                ),
            decreases n - fno,
        {
            let ghost stf = self@;
            let ghost fv = fs[fno as int];
            proof {
                assert(fs[fno as int] == p.functions@[fno as int]@);
                assert(fs.skip(fno as int)[0] == fs[fno as int]);
                assert(fs.skip(fno as int).drop_first() =~= fs.skip(fno + 1));
            }
            let f = &p.functions[fno];
            let fd = match d.find_func(&f.name) {
                Option::Some(j) => {
                    proof {
                        assert(d.data@[j as int].name@ == old(p)@.functions[j as int].name);
                        assert(d.data@[fno as int].name@ == old(p)@.functions[fno as int].name);
                        if j as int != fno as int {
                            assert(old(p)@.functions[j as int].name == old(
                                p,
                            )@.functions[fno as int].name);
                            assert(false);
                        }
                    }
                    &d.data[j]
                },
                Option::None => {
                    proof {
                        assert(d.data@[fno as int].name@ == fv.name);
                        assert(false);
                    }
                    &d.data[0]
                },
            };
            let ghost instrsv = fv.instrs;
            let ghost blocksv = scan_blocks(fv.instrs);
            proof {
                assert(d.data@[fno as int].filled_from(fv.instrs));
                assert(ranges_view(fd.blocks@) == blocksv);
                lemma_block_ranges(fv.instrs);
            }
            let mut argnames: Vec<String> = Vec::new();
            let na = f.args.len();
            let mut aj: usize = 0;
            while aj < na
                invariant
                    na == f.args@.len(),
                    aj <= na,
                    fv == f@,
                    argnames.deep_view().len() == aj,
                    forall|j: int| 0 <= j < aj ==> argnames.deep_view()[j] == arg_names(fv)[j],
                decreases na - aj,
            {
                proof {
                    assert(arg_names(fv)[aj as int] == f.args@[aj as int]@.name);
                }
                argnames.push(f.args[aj].name.clone());
                aj = aj + 1;
            }
            proof {
                assert(argnames.deep_view() =~= arg_names(fv));
            }
            let ghost an = arg_names(fv);
            let ghost stf0 = with_args(stf, an);
            let nb = fd.blocks.len();
            let mut full: Vec<Code> = Vec::new();
            let mut b: usize = 0;
            proof {
                assert(blocksv.skip(0) =~= blocksv);
                assert(with_args(self@, an) =~= stf0);
                assert(full.deep_view() =~= Seq::<CodeV>::empty());
                assert(Seq::<CodeV>::empty() + lvn_blocks_out(stf0, instrsv, blocksv)
                    =~= lvn_blocks_out(stf0, instrsv, blocksv));
            }
            while b < nb
                invariant
                    n == p.functions@.len(),
                    *p == *old(p),
                    fs == old(p)@.functions,
                    st_init == old(self)@,
                    fno < n,
                    fv == fs[fno as int],
                    fv == f@,
                    instrsv == fv.instrs,
                    blocksv == scan_blocks(fv.instrs),
                    an == arg_names(fv),
                    *fd == d.data@[fno as int],
                    ranges_view(fd.blocks@) == blocksv,
                    argnames.deep_view() == an,
                    nb == fd.blocks@.len(),
                    b <= nb,
                    self.wf(),
                    self@.args == an || b == 0,
                    with_args(self@, an) == (if b == 0 {
                        stf0
                    } else {
                        self@
                    }),
                    lvn_blocks_ok(stf0, instrsv, blocksv) == lvn_blocks_ok(
                        with_args(self@, an),
                        instrsv,
                        blocksv.skip(b as int),
                    ),
                    lvn_blocks_state(stf0, instrsv, blocksv) == lvn_blocks_state(
                        with_args(self@, an),
                        instrsv,
                        blocksv.skip(b as int),
                    ),
                    lvn_blocks_out(stf0, instrsv, blocksv) == full.deep_view() + lvn_blocks_out(
                        with_args(self@, an),
                        instrsv,
                        blocksv.skip(b as int),
                    ),
                    lvn_funcs_ok(st_init, fs) == (lvn_func_ok(stf, fv) && lvn_funcs_ok(
                        lvn_func_state(stf, fv),
                        fs.skip(fno + 1),
                    )),
                    lvn_func_ok(stf, fv) == lvn_blocks_ok(stf0, instrsv, blocksv),
                    lvn_func_state(stf, fv) == lvn_blocks_state(stf0, instrsv, blocksv),
                    lvn_func_out(stf, fv) == lvn_blocks_out(stf0, instrsv, blocksv),
                    lvn_funcs_state(st_init, fs) == lvn_funcs_state(
                        lvn_func_state(stf, fv),
                        fs.skip(fno + 1),
                    ),
                    lvn_funcs_outs(st_init, fs) == outs.deep_view() + (seq![
                        lvn_func_out(stf, fv),
                    ] + lvn_funcs_outs(lvn_func_state(stf, fv), fs.skip(fno + 1))),
                decreases nb - b,
            {
                let ghost stb = self@;
                let blk = fd.blocks[b];
                proof {
                    lemma_block_ranges(fv.instrs);
                    assert(ranges_view(fd.blocks@)[b as int] == blocksv[b as int]);
                    assert(blocksv.skip(b as int)[0] == blocksv[b as int]);
                    assert(blocksv.skip(b as int).drop_first() =~= blocksv.skip(b + 1));
                    assert(0 <= blocksv[b as int].0 && blocksv[b as int].0 < blocksv[b as int].1
                        && blocksv[b as int].1 <= instrsv.len());
                    assert(instrsv == f.instrs.deep_view());
                }
                match self.populate(&blk, &f.instrs, crate::ir::clone_strings(&argnames)) {
                    Result::Ok(mut out_b) => {
                        let ghost sub = instrsv.subrange(
                            blocksv[b as int].0,
                            blocksv[b as int].1,
                        );
                        proof {
                            assert(self@ == lvn_fold_state(with_args(stb, an), sub));
                            lemma_fold_args(with_args(stb, an), sub);
                            assert(self@.args == an);
                            assert(with_args(self@, an) =~= self@);
                        }
                        let ghost prev_full = full.deep_view();
                        full.append(&mut out_b);
                        proof {
                            assert(full.deep_view() =~= prev_full + lvn_fold_out(
                                with_args(stb, an),
                                sub,
                            ));
                            assert(prev_full + (lvn_fold_out(with_args(stb, an), sub)
                                + lvn_blocks_out(self@, instrsv, blocksv.skip(b + 1)))
                                =~= full.deep_view() + lvn_blocks_out(
                                self@,
                                instrsv,
                                blocksv.skip(b + 1),
                            ));
                        }
                    },
                    Result::Err(e) => {
                        proof {
                            assert(!lvn_ok(with_args(stb, an), instrsv.subrange(
                                blocksv[b as int].0,
                                blocksv[b as int].1,
                            )));
                            assert(!lvn_blocks_ok(
                                with_args(stb, an),
                                instrsv,
                                blocksv.skip(b as int),
                            ));
                            assert(!lvn_blocks_ok(stf0, instrsv, blocksv));
                            assert(!lvn_func_ok(stf, fv));
                            assert(!lvn_funcs_ok(st_init, fs));
                        }
                        return Err(e);
                    },
                }
                b = b + 1;
            }
            proof {
                assert(blocksv.skip(nb as int) =~= Seq::<(int, int)>::empty());
                assert(full.deep_view() + Seq::<CodeV>::empty() =~= full.deep_view());
                assert(with_args(self@, an) == lvn_func_state(stf, fv));
                assert(with_args(self@, an) =~= self@ || nb == 0);
            }
            if nb == 0 {
                proof {
                    assert(lvn_func_state(stf, fv) == stf0);
                }
                self.args = crate::ir::clone_strings(&argnames);
                proof {
                    assert(self@ =~= stf0);
                }
            }
            proof {
                assert(self@ == lvn_func_state(stf, fv));
                assert(full.deep_view() == lvn_func_out(stf, fv));
                assert(lvn_func_ok(stf, fv));
            }
            let ghost prev_outs = outs.deep_view();
            outs.push(full);
            proof {
                assert(outs.deep_view() =~= prev_outs.push(lvn_func_out(stf, fv)));
                assert(prev_outs + (seq![lvn_func_out(stf, fv)] + lvn_funcs_outs(
                    lvn_func_state(stf, fv),
                    fs.skip(fno + 1),
                )) =~= outs.deep_view() + lvn_funcs_outs(self@, fs.skip(fno + 1)));
            }
            fno = fno + 1;
        }
        proof {
            assert(fs.skip(n as int) =~= Seq::<FunctionV>::empty());
            assert(outs.deep_view() + Seq::<Seq<CodeV>>::empty() =~= outs.deep_view());
            assert(lvn_funcs_outs(st_init, fs) == outs.deep_view());
            assert(lvn_funcs_state(st_init, fs) == self@);
            assert(lvn_funcs_ok(st_init, fs));
        }
        let ghost outs_spec = lvn_funcs_outs(st_init, fs);
        let mut fno2: usize = 0;
        while fno2 < n
            invariant
                n == p.functions@.len(),
                fs == old(p)@.functions,
                fs.len() == n,
                st_init == old(self)@,
                outs_spec == lvn_funcs_outs(st_init, fs),
                self.wf(),
                self@ == lvn_funcs_state(st_init, fs),
                lvn_funcs_ok(st_init, fs),
                fno2 <= n,
                outs@.len() == n - fno2,
                forall|i: int|
                    0 <= i < n - fno2 ==> outs.deep_view()[i] == outs_spec[fno2 + i],
                forall|i: int|
                    0 <= i < fno2 ==> p.functions@[i]@ == (FunctionV {
                        instrs: outs_spec[i],
                        ..fs[i]
                    }),
                forall|i: int| fno2 <= i < n ==> p.functions@[i]@ == fs[i],
            decreases n - fno2,
        {
            let ghost pre_outs = outs.deep_view();
            let ghost pre_funcs = p.functions@;
            let out_i = outs.remove(0);
            let mut f = p.functions.remove(fno2);
            proof {
                assert(f@ == fs[fno2 as int]);
                assert(out_i.deep_view() == pre_outs[0]);
                assert(pre_outs[0] == outs_spec[fno2 + 0]);
                assert(out_i.deep_view() == outs_spec[fno2 as int]);
            }
            f.instrs = out_i;
            proof {
                assert(f@ =~= (FunctionV { instrs: outs_spec[fno2 as int], ..fs[fno2 as int] }));
            }
            p.functions.insert(fno2, f);
            proof {
                assert(p.functions@ =~= pre_funcs.update(fno2 as int, p.functions@[fno2 as int]));
                assert forall|i: int| 0 <= i < outs.deep_view().len() implies outs.deep_view()[i]
                    == outs_spec[fno2 + 1 + i] by {
                    assert(outs.deep_view()[i] == pre_outs[i + 1]);
                }
            }
            fno2 = fno2 + 1;
        }
        proof {
            assert forall|i: int| 0 <= i < old(p)@.functions.len() implies (
            #[trigger] p@.functions[i]) == (FunctionV {
                instrs: lvn_funcs_outs(old(self)@, old(p)@.functions)[i],
                ..old(p)@.functions[i]
            }) by {
                assert(p@.functions[i] == p.functions@[i]@);
            }
        }
        Ok(())
    }
}

} // verus!
