use vstd::prelude::*;

use crate::ir::{
    Code, CodeV, EffectOp, Function, FunctionV, Instruction, InstructionV, Program, ProgramV,
    ValueOp,
};

verus! {

/// The identity of one control-flow-graph node: a function and one of its
/// basic blocks, both by position.
#[derive(Clone, Copy, Debug, PartialEq, Eq, Structural, Hash)]
pub struct CFGPos {
    pub funcno: usize,
    pub blockno: usize,
}

impl View for CFGPos {
    type V = (int, int);

    open spec fn view(&self) -> (int, int) {
        (self.funcno as int, self.blockno as int)
    }
}

/// Errors that end a resolution run. The run is a one-shot transform: each of
/// these is fatal and no partial output is produced.
#[derive(Clone, Copy, Debug, PartialEq, Eq, Structural)]
pub enum ResolveError {
    /// Two functions of the program carry the same name.
    DuplicateFunction,
    /// A jump or branch names a label that its function does not define.
    UndefinedLabel,
    /// A call names a function that the program does not define.
    UndefinedCallee,
}

/// Does an instruction produce or perform a call?
pub open spec fn is_call_instr(i: InstructionV) -> bool {
    match i {
        InstructionV::Value { op, .. } => op == ValueOp::Call,
        InstructionV::Effect { op, .. } => op == EffectOp::Call,
        InstructionV::Constant { .. } => false,
    }
}

/// The callee list of an instruction.
pub open spec fn instr_funcs(i: InstructionV) -> Seq<Seq<char>> {
    match i {
        InstructionV::Value { funcs, .. } => funcs,
        InstructionV::Effect { funcs, .. } => funcs,
        InstructionV::Constant { .. } => Seq::empty(),
    }
}

/// If this item is a call instruction, it names at least one callee.
pub open spec fn code_call_ok(c: CodeV) -> bool {
    match c {
        CodeV::Instruction(instr) => is_call_instr(instr) ==> instr_funcs(instr).len() >= 1,
        CodeV::Label { .. } => true,
    }
}

/// Every call instruction of the sequence names at least one callee.
pub open spec fn calls_have_callee(s: Seq<CodeV>) -> bool {
    forall|i: int| 0 <= i < s.len() ==> code_call_ok(#[trigger] s[i])
}

/// If both items are labels, their names differ.
pub open spec fn labels_differ(a: CodeV, b: CodeV) -> bool {
    match (a, b) {
        (CodeV::Label { label: x }, CodeV::Label { label: y }) => x != y,
        _ => true,
    }
}

/// No two label items of the sequence carry the same name.
pub open spec fn labels_distinct(s: Seq<CodeV>) -> bool {
    forall|i: int, j: int| 0 <= i < j < s.len() ==> labels_differ(#[trigger] s[i], #[trigger] s[j])
}

/// The state accumulated while a function body is partitioned into basic
/// blocks, scanning left to right.
#[verifier::ext_equal]
pub ghost struct ScanState {
    /// The closed blocks, in program order, as half-open index ranges.
    pub blocks: Seq<(int, int)>,
    /// Label name to the index of the block that starts at the label.
    pub labels: Map<Seq<char>, int>,
    /// Line of each call instruction to the name of its (first) callee.
    pub calls: Map<int, Seq<char>>,
    /// Lines holding return instructions.
    pub returns: Seq<int>,
    /// The (callee name, call-site block) pairs seen so far.
    pub pairs: Set<(Seq<char>, int)>,
    /// The still-open range.
    pub cur: (int, int),
}

/// The scan state before any item has been read.
pub open spec fn scan_init() -> ScanState {
    ScanState {
        blocks: Seq::empty(),
        labels: Map::empty(),
        calls: Map::empty(),
        returns: Seq::empty(),
        pairs: Set::empty(),
        cur: (0, 0),
    }
}

/// One step of the block-formation scan: item `c` stands at index `ino`.
///
/// An appended call, jump, branch or return closes the growing range. A label
/// not seen before closes any non-empty pending range without entering it,
/// names the next block, and opens a new range that includes the label's own
/// slot; a label seen before is ignored.
pub open spec fn scan_step(st: ScanState, c: CodeV, ino: int) -> ScanState {
    match c {
        CodeV::Instruction(instr) => {
            let cur2 = (st.cur.0, st.cur.1 + 1);
            if is_call_instr(instr) {
                ScanState {
                    blocks: st.blocks.push(cur2),
                    calls: st.calls.insert(ino, instr_funcs(instr)[0]),
                    pairs: st.pairs.insert((instr_funcs(instr)[0], st.blocks.len() as int)),
                    cur: (cur2.1, cur2.1),
                    ..st
                }
            } else {
                match instr {
                    InstructionV::Effect { op, .. } => {
                        if op == EffectOp::Return {
                            ScanState {
                                blocks: st.blocks.push(cur2),
                                returns: st.returns.push(ino),
                                cur: (cur2.1, cur2.1),
                                ..st
                            }
                        } else if op == EffectOp::Jump || op == EffectOp::Branch {
                            ScanState { blocks: st.blocks.push(cur2), cur: (cur2.1, cur2.1), ..st }
                        } else {
                            ScanState { cur: cur2, ..st }
                        }
                    },
                    _ => ScanState { cur: cur2, ..st },
                }
            }
        },
        CodeV::Label { label } => {
            if st.labels.contains_key(label) {
                st
            } else {
                let st1 = if st.cur.1 - st.cur.0 > 0 {
                    ScanState { blocks: st.blocks.push(st.cur), ..st }
                } else {
                    st
                };
                ScanState {
                    labels: st1.labels.insert(label, st1.blocks.len() as int),
                    cur: (st.cur.1, st.cur.1 + 1),
                    ..st1
                }
            }
        },
    }
}

/// The scan state after the first `n` items of `s`.
pub open spec fn scan_prefix(s: Seq<CodeV>, n: int) -> ScanState
    decreases n,
{
    if n <= 0 {
        scan_init()
    } else {
        scan_step(scan_prefix(s, n - 1), s[n - 1], n - 1)
    }
}

/// The scan state after the whole sequence.
pub open spec fn scan(s: Seq<CodeV>) -> ScanState {
    scan_prefix(s, s.len() as int)
}

/// The final block list: a trailing non-empty range is closed at function end.
pub open spec fn scan_blocks(s: Seq<CodeV>) -> Seq<(int, int)> {
    let st = scan(s);
    if st.cur.1 - st.cur.0 > 0 {
        st.blocks.push(st.cur)
    } else {
        st.blocks
    }
}

/// The mathematical image of an index-range list.
pub open spec fn ranges_view(s: Seq<(usize, usize)>) -> Seq<(int, int)> {
    Seq::new(s.len(), |i: int| (s[i].0 as int, s[i].1 as int))
}

/// The mathematical image of a line list.
pub open spec fn lines_view(s: Seq<usize>) -> Seq<int> {
    Seq::new(s.len(), |i: int| s[i] as int)
}

/// A (name, index) association list read as a map; a later entry wins.
pub open spec fn assoc_labels(s: Seq<(String, usize)>) -> Map<Seq<char>, int>
    decreases s.len(),
{
    if s.len() == 0 {
        Map::empty()
    } else {
        assoc_labels(s.drop_last()).insert(s.last().0@, s.last().1 as int)
    }
}

/// An (index, name) association list read as a map; a later entry wins.
pub open spec fn assoc_calls(s: Seq<(usize, String)>) -> Map<int, Seq<char>>
    decreases s.len(),
{
    if s.len() == 0 {
        Map::empty()
    } else {
        assoc_calls(s.drop_last()).insert(s.last().0 as int, s.last().1@)
    }
}

/// A (name, index) pair list read as a set.
pub open spec fn pairs_view(s: Seq<(String, usize)>) -> Set<(Seq<char>, int)>
    decreases s.len(),
{
    if s.len() == 0 {
        Set::empty()
    } else {
        pairs_view(s.drop_last()).insert((s.last().0@, s.last().1 as int))
    }
}

/// Look a name up in a (name, index) association list, later entries first,
/// so the result is exactly what the map image of the list holds.
pub(crate) fn assoc_get(v: &Vec<(String, usize)>, k: &String) -> (r: Option<usize>)
    ensures
        match r {
            Option::None => !assoc_labels(v@).contains_key(k@),
            Option::Some(n) => assoc_labels(v@).contains_key(k@) && assoc_labels(v@)[k@]
                == n as int,
        },
{
    let ghost full = v@;
    let mut i: usize = v.len();
    proof {
        assert(full.take(i as int) =~= full);
    }
    while i > 0
        invariant
            i <= v.len(),
            full == v@,
            assoc_labels(full).contains_key(k@) == assoc_labels(full.take(i as int)).contains_key(
                k@,
            ),
            assoc_labels(full).contains_key(k@) ==> assoc_labels(full)[k@] == assoc_labels(
                full.take(i as int),
            )[k@],
        decreases i,
    {
        i = i - 1;
        proof {
            assert(full.take(i + 1).drop_last() =~= full.take(i as int));
            assert(full.take(i + 1).last() == full[i as int]);
        }
        if v[i].0.eq(k) {
            return Some(v[i].1);
        }
    }
    proof {
        assert(full.take(0) =~= Seq::<(String, usize)>::empty());
    }
    None
}

/// Everything the resolver records about one function. Built once during
/// resolution, then only read.
#[derive(Debug)]
pub struct FunctionData {
    /// The function's position in the program's function list.
    pub funcno: usize,
    /// The function's name.
    pub name: String,
    /// Every (function, block) position holding a call to this function.
    pub callers: Vec<CFGPos>,
    /// Line of each call instruction to the name of its callee.
    pub calls: Vec<(usize, String)>,
    /// The basic blocks, in program order, as half-open index ranges.
    pub blocks: Vec<(usize, usize)>,
    /// Label name to the index of the block that starts at the label.
    pub labels: Vec<(String, usize)>,
    /// Lines holding return instructions.
    pub returns: Vec<usize>,
}

impl Default for FunctionData {
    /// An empty record, not yet tied to any function.
    fn default() -> (r: FunctionData)
        ensures
            r.funcno == 0,
            r.name@ == Seq::<char>::empty(),
            r.unfilled(),
            r.callers@ == Seq::<CFGPos>::empty(),
    {
        FunctionData {
            funcno: 0,
            name: String::new(),
            callers: Vec::new(),
            calls: Vec::new(),
            blocks: Vec::new(),
            labels: Vec::new(),
            returns: Vec::new(),
        }
    }
}

impl FunctionData {
    /// The record as it stands before its function has been scanned; the
    /// caller table is kept apart, since other functions' scans feed it.
    pub open spec fn unfilled(self) -> bool {
        &&& self.calls@ =~= Seq::<(usize, String)>::empty()
        &&& self.blocks@ =~= Seq::<(usize, usize)>::empty()
        &&& self.labels@ =~= Seq::<(String, usize)>::empty()
        &&& self.returns@ =~= Seq::<usize>::empty()
    }

    /// The record agrees with the scan of the given body.
    pub open spec fn filled_from(self, instrs: Seq<CodeV>) -> bool {
        &&& ranges_view(self.blocks@) == scan_blocks(instrs)
        &&& assoc_labels(self.labels@) == scan(instrs).labels
        &&& assoc_calls(self.calls@) == scan(instrs).calls
        &&& lines_view(self.returns@) == scan(instrs).returns
    }

    /// Partition the function's body into basic blocks and record labels,
    /// call lines and return lines; everything but `callers` and the identity
    /// fields is filled. Returns the (callee, call-site block) pairs found,
    /// from which the caller tables of the callees are later populated.
    pub fn populate(&mut self, f: &Function) -> (calls: Vec<(String, usize)>)
        requires
            old(self).unfilled(),
            calls_have_callee(f@.instrs),
        ensures
            final(self).funcno == old(self).funcno,
            final(self).name == old(self).name,
            final(self).callers == old(self).callers,
            final(self).filled_from(f@.instrs),
            pairs_view(calls@) == scan(f@.instrs).pairs,
    {
        let ghost s = f@.instrs;
        let mut block_range: (usize, usize) = (0, 0);
        let mut calls: Vec<(String, usize)> = Vec::new();
        let n = f.instrs.len();
        let mut ino: usize = 0;
        proof {
            assert(ranges_view(self.blocks@) =~= scan_prefix(s, 0).blocks);
            assert(assoc_labels(self.labels@) =~= scan_prefix(s, 0).labels);
            assert(assoc_calls(self.calls@) =~= scan_prefix(s, 0).calls);
            assert(lines_view(self.returns@) =~= scan_prefix(s, 0).returns);
            assert(pairs_view(calls@) =~= scan_prefix(s, 0).pairs);
        }
        while ino < n
            invariant
                n == f.instrs.len(),
                s == f@.instrs,
                calls_have_callee(s),
                ino <= n,
                self.funcno == old(self).funcno,
                self.name == old(self).name,
                self.callers == old(self).callers,
                ranges_view(self.blocks@) == scan_prefix(s, ino as int).blocks,
                assoc_labels(self.labels@) == scan_prefix(s, ino as int).labels,
                assoc_calls(self.calls@) == scan_prefix(s, ino as int).calls,
                lines_view(self.returns@) == scan_prefix(s, ino as int).returns,
                pairs_view(calls@) == scan_prefix(s, ino as int).pairs,
                block_range.0 as int == scan_prefix(s, ino as int).cur.0,
                block_range.1 as int == scan_prefix(s, ino as int).cur.1,
                block_range.0 <= block_range.1,
                block_range.1 <= ino,
            decreases n - ino,
        {
            let ghost st = scan_prefix(s, ino as int);
            let ghost prev_blocks = self.blocks@;
            let ghost prev_labels = self.labels@;
            let ghost prev_calls = self.calls@;
            let ghost prev_returns = self.returns@;
            let ghost prev_pairs = calls@;
            proof {
                assert(s[ino as int] == f.instrs.deep_view()[ino as int]);
                assert(scan_prefix(s, ino as int + 1) == scan_step(st, s[ino as int], ino as int));
            }
            match &f.instrs[ino] {
                Code::Instruction(instr) => {
                    let r2: (usize, usize) = (block_range.0, block_range.1 + 1);
                    match instr {
                        Instruction::Value { op, funcs, .. } if *op == ValueOp::Call => {
                            assert(is_call_instr(instr@) && instr_funcs(instr@) == funcs.deep_view());
                            assert(funcs.deep_view().len() >= 1);
                            assert(funcs.deep_view()[0] == funcs@[0]@);
                            let callee = funcs[0].clone();
                            let bno = self.blocks.len();
                            self.blocks.push(r2);
                            calls.push((callee.clone(), bno));
                            self.calls.push((ino, callee));
                            block_range = (r2.1, r2.1);
                            proof {
                                assert(ranges_view(self.blocks@) =~= ranges_view(prev_blocks).push((r2.0 as int, r2.1 as int)));
                                assert(calls@.drop_last() =~= prev_pairs);
                                assert(self.calls@.drop_last() =~= prev_calls);
                            }
                        },
                        Instruction::Effect { op, funcs, .. } if *op == EffectOp::Call => {
                            assert(is_call_instr(instr@) && instr_funcs(instr@) == funcs.deep_view());
                            assert(funcs.deep_view().len() >= 1);
                            assert(funcs.deep_view()[0] == funcs@[0]@);
                            let callee = funcs[0].clone();
                            let bno = self.blocks.len();
                            self.blocks.push(r2);
                            calls.push((callee.clone(), bno));
                            self.calls.push((ino, callee));
                            block_range = (r2.1, r2.1);
                            proof {
                                assert(ranges_view(self.blocks@) =~= ranges_view(prev_blocks).push((r2.0 as int, r2.1 as int)));
                                assert(calls@.drop_last() =~= prev_pairs);
                                assert(self.calls@.drop_last() =~= prev_calls);
                            }
                        },
                        Instruction::Effect { op, .. } if *op == EffectOp::Return => {
                            self.blocks.push(r2);
                            self.returns.push(ino);
                            block_range = (r2.1, r2.1);
                            proof {
                                assert(ranges_view(self.blocks@) =~= ranges_view(prev_blocks).push((r2.0 as int, r2.1 as int)));
                                assert(lines_view(self.returns@) =~= lines_view(prev_returns).push(
                                    ino as int,
                                ));
                            }
                        },
                        Instruction::Effect { op, .. } if *op == EffectOp::Jump || *op
                            == EffectOp::Branch => {
                            self.blocks.push(r2);
                            block_range = (r2.1, r2.1);
                            proof {
                                assert(ranges_view(self.blocks@) =~= ranges_view(prev_blocks).push((r2.0 as int, r2.1 as int)));
                            }
                        },
                        _ => {
                            block_range = r2;
                        },
                    }
                },
                Code::Label { label } => {
                    let seen = assoc_get(&self.labels, label);
                    if seen.is_none() {
                        let ghost mid_blocks = self.blocks@;
                        if block_range.1 - block_range.0 > 0 {
                            self.blocks.push(block_range);
                            proof {
                                assert(ranges_view(self.blocks@) =~= ranges_view(prev_blocks).push((block_range.0 as int, block_range.1 as int)));
                            }
                        }
                        let bno = self.blocks.len();
                        self.labels.push((label.clone(), bno));
                        proof {
                            assert(self.labels@.drop_last() =~= prev_labels);
                        }
                        block_range = (block_range.1, block_range.1 + 1);
                    }
                },
            }
            ino = ino + 1;
        }
        if block_range.1 - block_range.0 > 0 {
            let ghost prev_blocks = self.blocks@;
            self.blocks.push(block_range);
            proof {
                assert(ranges_view(self.blocks@) =~= ranges_view(prev_blocks).push((block_range.0 as int, block_range.1 as int)));
            }
        }
        calls
    }
}

/// Every block range the scan has closed, and the open range, lie within the
/// prefix read so far, and closed ranges are non-empty.
proof fn lemma_scan_ranges(s: Seq<CodeV>, n: int)
    requires
        0 <= n <= s.len(),
    ensures
        0 <= scan_prefix(s, n).cur.0 <= scan_prefix(s, n).cur.1 <= n,
        forall|k: int|
            0 <= k < scan_prefix(s, n).blocks.len() ==> {
                let r = #[trigger] scan_prefix(s, n).blocks[k];
                0 <= r.0 < r.1 <= scan_prefix(s, n).cur.0
            },
    decreases n,
{
    if n > 0 {
        lemma_scan_ranges(s, n - 1);
    }
}

/// Every basic-block range of a body is a non-empty interval within the body.
pub proof fn lemma_block_ranges(s: Seq<CodeV>)
    ensures
        forall|k: int|
            0 <= k < scan_blocks(s).len() ==> {
                let r = #[trigger] scan_blocks(s)[k];
                0 <= r.0 < r.1 <= s.len()
            },
{
    lemma_scan_ranges(s, s.len() as int);
}

/// The label targets of a jump or branch: pairs of the function's own
/// position with the block each label names.
pub open spec fn label_targets(fi: int, lm: Map<Seq<char>, int>, ls: Seq<Seq<char>>) -> Set<
    (int, int),
>
    decreases ls.len(),
{
    if ls.len() == 0 {
        Set::empty()
    } else {
        label_targets(fi, lm, ls.drop_last()).insert((fi, lm[ls.last()]))
    }
}

/// The callee targets of a call: the entry block of each named function.
pub open spec fn callee_targets(p: ProgramV, fs: Seq<Seq<char>>) -> Set<(int, int)>
    decreases fs.len(),
{
    if fs.len() == 0 {
        Set::empty()
    } else {
        callee_targets(p, fs.drop_last()).insert((func_index(p, fs.last()), 0))
    }
}

/// A caller-position list read as a set of (function, block) pairs.
pub open spec fn poslist_view(s: Seq<CFGPos>) -> Set<(int, int)>
    decreases s.len(),
{
    if s.len() == 0 {
        Set::empty()
    } else {
        poslist_view(s.drop_last()).insert(s.last()@)
    }
}

/// No two functions of the program carry the same name.
pub open spec fn names_distinct(p: ProgramV) -> bool {
    forall|i: int, j: int|
        0 <= i < j < p.functions.len() ==> (#[trigger] p.functions[i]).name != (
        #[trigger] p.functions[j]).name
}

/// Every call instruction of every function names at least one callee.
pub open spec fn program_calls_ok(p: ProgramV) -> bool {
    forall|i: int|
        0 <= i < p.functions.len() ==> calls_have_callee((#[trigger] p.functions[i]).instrs)
}

/// Is some function of the program named `n`?
pub open spec fn has_func(p: ProgramV, n: Seq<char>) -> bool {
    exists|i: int| 0 <= i < p.functions.len() && (#[trigger] p.functions[i]).name == n
}

/// The position of the function named `n`; with distinct names it is unique.
pub open spec fn func_index(p: ProgramV, n: Seq<char>) -> int {
    choose|i: int| 0 <= i < p.functions.len() && (#[trigger] p.functions[i]).name == n
}

/// Every (function, block) position from which function `i` is called: the
/// scan of function `j` recorded the pair (name of `i`, block) at a call site.
pub open spec fn spec_callers(p: ProgramV, i: int) -> Set<(int, int)> {
    Set::new(
        |q: (int, int)|
            0 <= q.0 < p.functions.len() && scan(p.functions[q.0].instrs).pairs.contains(
                (p.functions[i].name, q.1),
            ),
    )
}

/// The caller positions of function `i` contributed by functions before `n`.
pub open spec fn spec_callers_upto(p: ProgramV, i: int, n: int) -> Set<(int, int)> {
    Set::new(
        |q: (int, int)|
            0 <= q.0 < n && scan(p.functions[q.0].instrs).pairs.contains(
                (p.functions[i].name, q.1),
            ),
    )
}

/// The caller positions that the pair list `s` of function `fno` contributes
/// to a function named `name`.
pub open spec fn pair_targets(fno: int, name: Seq<char>, s: Seq<(String, usize)>) -> Set<(int, int)>
    decreases s.len(),
{
    if s.len() == 0 {
        Set::empty()
    } else {
        let r = pair_targets(fno, name, s.drop_last());
        if s.last().0@ == name {
            r.insert((fno, s.last().1 as int))
        } else {
            r
        }
    }
}

/// A pair list's contribution is exactly its pairs naming `name`, placed in
/// function `fno`.
proof fn lemma_contrib(fno: int, name: Seq<char>, s: Seq<(String, usize)>)
    ensures
        pair_targets(fno, name, s) =~= Set::new(
            |q: (int, int)| q.0 == fno && pairs_view(s).contains((name, q.1)),
        ),
    decreases s.len(),
{
    if s.len() > 0 {
        lemma_contrib(fno, name, s.drop_last());
    }
}

/// The invariants the scan keeps while it walks a body whose labels are
/// distinct: closed blocks tile the indices from zero, the open range
/// continues them and ends at the read position, and the label table maps
/// exactly the labels read so far to blocks that exist or are being formed.
#[verifier::rlimit(100)]
proof fn lemma_scan_partition(s: Seq<CodeV>, n: int)
    requires
        0 <= n <= s.len(),
        labels_distinct(s),
    ensures
        ({
            let st = scan_prefix(s, n);
            &&& st.cur.1 == n
            &&& 0 <= st.cur.0 <= st.cur.1
            &&& st.cur.0 == if st.blocks.len() == 0 {
                0int
            } else {
                st.blocks[st.blocks.len() - 1].1
            }
            &&& forall|k: int|
                0 <= k < st.blocks.len() ==> (#[trigger] st.blocks[k]).0 == (if k == 0 {
                    0int
                } else {
                    st.blocks[k - 1].1
                })
            &&& forall|k: int| 0 <= k < st.blocks.len() ==> (#[trigger] st.blocks[k]).0 < st.blocks[k].1
            &&& forall|l: Seq<char>|
                st.labels.contains_key(l) <==> exists|i: int|
                    0 <= i < n && #[trigger] s[i] == (CodeV::Label { label: l })
            &&& forall|l: Seq<char>|
                #[trigger] st.labels.contains_key(l) ==> 0 <= st.labels[l] <= st.blocks.len()
            &&& forall|l: Seq<char>|
                #[trigger] st.labels.contains_key(l) && st.labels[l] == st.blocks.len()
                    ==> st.cur.1 > st.cur.0
        }),
    decreases n,
{
    if n > 0 {
        lemma_scan_partition(s, n - 1);
        let st = scan_prefix(s, n - 1);
        let st2 = scan_prefix(s, n);
        match s[n - 1] {
            CodeV::Label { label } => {
                if st.labels.contains_key(label) {
                    let i0 = choose|i: int|
                        0 <= i < n - 1 && #[trigger] s[i] == (CodeV::Label { label });
                    assert(labels_differ(s[i0], s[n - 1]));
                    assert(false);
                } else {
                    assert forall|l: Seq<char>| st2.labels.contains_key(l) implies exists|i: int|
                        0 <= i < n && #[trigger] s[i] == (CodeV::Label { label: l }) by {
                        if l == label {
                            assert(s[n - 1] == (CodeV::Label { label: l }));
                        } else {
                            let i0 = choose|i: int|
                                0 <= i < n - 1 && #[trigger] s[i] == (CodeV::Label { label: l });
                            assert(s[i0] == (CodeV::Label { label: l }));
                        }
                    }
                }
            },
            CodeV::Instruction(_) => {
                assert forall|l: Seq<char>| st2.labels.contains_key(l) implies exists|i: int|
                    0 <= i < n && #[trigger] s[i] == (CodeV::Label { label: l }) by {
                    let i0 = choose|i: int|
                        0 <= i < n - 1 && #[trigger] s[i] == (CodeV::Label { label: l });
                    assert(s[i0] == (CodeV::Label { label: l }));
                }
            },
        }
    }
}

/// Block partition coverage: when a body's labels are distinct, its block
/// ranges are non-empty, consecutive and cover the body's index span exactly,
/// with no gap and no overlap; and every label names a block of the list.
pub proof fn lemma_block_partition(s: Seq<CodeV>)
    requires
        labels_distinct(s),
    ensures
        scan_blocks(s).len() == 0 ==> s.len() == 0,
        forall|k: int|
            0 <= k < scan_blocks(s).len() ==> (#[trigger] scan_blocks(s)[k]).0 == (if k == 0 {
                0int
            } else {
                scan_blocks(s)[k - 1].1
            }),
        forall|k: int|
            0 <= k < scan_blocks(s).len() ==> (#[trigger] scan_blocks(s)[k]).0 < scan_blocks(
                s,
            )[k].1,
        scan_blocks(s).len() > 0 ==> scan_blocks(s)[scan_blocks(s).len() - 1].1 == s.len(),
        forall|l: Seq<char>|
            #[trigger] scan(s).labels.contains_key(l) ==> 0 <= scan(s).labels[l] < scan_blocks(
                s,
            ).len(),
{
    lemma_scan_partition(s, s.len() as int);
}

/// Which pairs a label-target set holds: exactly the function's own position
/// paired with the block of each named label.
pub proof fn lemma_label_targets_mem(fi: int, lm: Map<Seq<char>, int>, ls: Seq<Seq<char>>)
    ensures
        forall|q: (int, int)|
            label_targets(fi, lm, ls).contains(q) <==> exists|k: int|
                0 <= k < ls.len() && q == (fi, lm[#[trigger] ls[k]]),
    decreases ls.len(),
{
    if ls.len() > 0 {
        lemma_label_targets_mem(fi, lm, ls.drop_last());
        assert forall|q: (int, int)| label_targets(fi, lm, ls).contains(q) implies exists|k: int|
            0 <= k < ls.len() && q == (fi, lm[#[trigger] ls[k]]) by {
            if q == (fi, lm[ls.last()]) {
                assert(ls[ls.len() - 1] == ls.last());
            } else {
                assert(label_targets(fi, lm, ls.drop_last()).contains(q));
                let k0 = choose|k: int|
                    0 <= k < ls.drop_last().len() && q == (fi, lm[#[trigger] ls.drop_last()[k]]);
                assert(ls[k0] == ls.drop_last()[k0]);
            }
        }
        assert forall|q: (int, int)|
            (exists|k: int| 0 <= k < ls.len() && q == (fi, lm[#[trigger] ls[k]])) implies label_targets(
            fi,
            lm,
            ls,
        ).contains(q) by {
            let k0 = choose|k: int| 0 <= k < ls.len() && q == (fi, lm[#[trigger] ls[k]]);
            if k0 == ls.len() - 1 {
                assert(ls[k0] == ls.last());
            } else {
                assert(ls.drop_last()[k0] == ls[k0]);
                assert(label_targets(fi, lm, ls.drop_last()).contains(q));
            }
        }
    }
}

/// Which pairs a callee-target set holds: exactly each named function's
/// entry block.
pub proof fn lemma_callee_targets_mem(p: ProgramV, fs: Seq<Seq<char>>)
    ensures
        forall|q: (int, int)|
            callee_targets(p, fs).contains(q) <==> exists|k: int|
                0 <= k < fs.len() && q == (func_index(p, #[trigger] fs[k]), 0int),
    decreases fs.len(),
{
    if fs.len() > 0 {
        lemma_callee_targets_mem(p, fs.drop_last());
        assert forall|q: (int, int)| callee_targets(p, fs).contains(q) implies exists|k: int|
            0 <= k < fs.len() && q == (func_index(p, #[trigger] fs[k]), 0int) by {
            if q == (func_index(p, fs.last()), 0int) {
                assert(fs[fs.len() - 1] == fs.last());
            } else {
                assert(callee_targets(p, fs.drop_last()).contains(q));
                let k0 = choose|k: int|
                    0 <= k < fs.drop_last().len() && q == (
                        func_index(p, #[trigger] fs.drop_last()[k]),
                        0int,
                    );
                assert(fs[k0] == fs.drop_last()[k0]);
            }
        }
        assert forall|q: (int, int)|
            (exists|k: int| 0 <= k < fs.len() && q == (func_index(p, #[trigger] fs[k]), 0int)) implies callee_targets(
            p,
            fs,
        ).contains(q) by {
            let k0 = choose|k: int| 0 <= k < fs.len() && q == (func_index(p, #[trigger] fs[k]), 0int);
            if k0 == fs.len() - 1 {
                assert(fs[k0] == fs.last());
            } else {
                assert(fs.drop_last()[k0] == fs[k0]);
                assert(callee_targets(p, fs.drop_last()).contains(q));
            }
        }
    }
}

/// CFG edge completeness for a jump or branch: the block's edges are exactly
/// those to the blocks owning its labels, within its own function.
pub proof fn lemma_cfg_jump_edges(p: ProgramV, i: int, b: int)
    requires
        0 <= i < p.functions.len(),
        0 <= b < scan_blocks(p.functions[i].instrs).len(),
        block_term(p.functions[i], b) matches CodeV::Instruction(instr) && instr matches
            InstructionV::Effect { op, .. } && (op == EffectOp::Jump || op == EffectOp::Branch),
    ensures
        forall|q: (int, int)|
            spec_succs(p, i, b).contains(q) <==> exists|k: int|
                0 <= k < instr_labels(block_term(p.functions[i], b)->Instruction_0).len() && q == (
                    i,
                    scan(p.functions[i].instrs).labels[#[trigger] instr_labels(
                        block_term(p.functions[i], b)->Instruction_0,
                    )[k]],
                ),
{
    let instr = block_term(p.functions[i], b)->Instruction_0;
    lemma_label_targets_mem(i, scan(p.functions[i].instrs).labels, instr_labels(instr));
}

/// CFG edge completeness for a call: the block's edges are exactly those to
/// each callee's entry block, plus one to the next block of its own function
/// unless the call's block is the function's last.
pub proof fn lemma_cfg_call_edges(p: ProgramV, i: int, b: int)
    requires
        0 <= i < p.functions.len(),
        0 <= b < scan_blocks(p.functions[i].instrs).len(),
        block_term(p.functions[i], b) matches CodeV::Instruction(instr) && is_call_instr(instr),
    ensures
        forall|q: (int, int)|
            spec_succs(p, i, b).contains(q) <==> {
                ||| exists|k: int|
                    0 <= k < instr_funcs(block_term(p.functions[i], b)->Instruction_0).len() && q
                        == (
                        func_index(
                            p,
                            #[trigger] instr_funcs(
                                block_term(p.functions[i], b)->Instruction_0,
                            )[k],
                        ),
                        0int,
                    )
                ||| (b + 1 < scan_blocks(p.functions[i].instrs).len() && q == (i, b + 1))
            },
{
    let instr = block_term(p.functions[i], b)->Instruction_0;
    lemma_callee_targets_mem(p, instr_funcs(instr));
}

/// Return fan-out: a block ending in a return has an edge to every recorded
/// caller position of its function, and no others.
pub proof fn lemma_cfg_return_fanout(p: ProgramV, i: int, b: int)
    requires
        0 <= i < p.functions.len(),
        0 <= b < scan_blocks(p.functions[i].instrs).len(),
        block_term(p.functions[i], b) matches CodeV::Instruction(instr) && instr matches
            InstructionV::Effect { op, .. } && op == EffectOp::Return,
    ensures
        spec_succs(p, i, b) == spec_callers(p, i),
        forall|q: (int, int)|
            spec_succs(p, i, b).contains(q) <==> (0 <= q.0 < p.functions.len() && scan(
                p.functions[q.0].instrs,
            ).pairs.contains((p.functions[i].name, q.1))),
{
}

/// The jump/branch target list of an instruction.
pub open spec fn instr_labels(i: InstructionV) -> Seq<Seq<char>> {
    match i {
        InstructionV::Value { labels, .. } => labels,
        InstructionV::Effect { labels, .. } => labels,
        InstructionV::Constant { .. } => Seq::empty(),
    }
}

/// The item at a block's last slot, which decides the block's edges.
pub open spec fn block_term(f: FunctionV, b: int) -> CodeV {
    f.instrs[scan_blocks(f.instrs)[b].1 - 1]
}

/// The successor set of block `b` of function `i`, assuming its labels and
/// callees are defined.
///
/// A jump or branch has an edge to each labelled block of its own function. A
/// call has an edge to each callee's entry block, and, unless its block is the
/// function's last, to the block that follows it. A return has an edge to
/// every recorded caller position of its function: a deliberately conservative
/// fan-out that does not match call sites to returns. A block whose last slot
/// is anything else gets no explicit edge.
pub open spec fn spec_succs(p: ProgramV, i: int, b: int) -> Set<(int, int)> {
    let f = p.functions[i];
    let st = scan(f.instrs);
    match block_term(f, b) {
        CodeV::Instruction(instr) => {
            if is_call_instr(instr) {
                let base = callee_targets(p, instr_funcs(instr));
                if b + 1 < scan_blocks(f.instrs).len() {
                    base.insert((i, b + 1))
                } else {
                    base
                }
            } else {
                match instr {
                    InstructionV::Effect { op, labels, .. } => {
                        if op == EffectOp::Jump || op == EffectOp::Branch {
                            label_targets(i, st.labels, labels)
                        } else if op == EffectOp::Return {
                            spec_callers(p, i)
                        } else {
                            Set::empty()
                        }
                    },
                    _ => Set::empty(),
                }
            }
        },
        CodeV::Label { .. } => Set::empty(),
    }
}

/// Block `b` of function `i` can be given edges: whatever its terminator
/// names — labels of a jump or branch, callees of a call — is defined.
pub open spec fn block_ok(p: ProgramV, i: int, b: int) -> bool {
    let f = p.functions[i];
    let st = scan(f.instrs);
    match block_term(f, b) {
        CodeV::Instruction(instr) => {
            if is_call_instr(instr) {
                forall|k: int|
                    0 <= k < instr_funcs(instr).len() ==> has_func(
                        p,
                        #[trigger] instr_funcs(instr)[k],
                    )
            } else {
                match instr {
                    InstructionV::Effect { op, labels, .. } => {
                        if op == EffectOp::Jump || op == EffectOp::Branch {
                            forall|k: int|
                                0 <= k < labels.len() ==> st.labels.contains_key(
                                    #[trigger] labels[k],
                                )
                        } else {
                            true
                        }
                    },
                    _ => true,
                }
            }
        },
        CodeV::Label { .. } => true,
    }
}

/// Block `b` of function `i` ends in a jump or branch naming a label its
/// function does not define.
pub open spec fn block_missing_label(p: ProgramV, i: int, b: int) -> bool {
    match block_term(p.functions[i], b) {
        CodeV::Instruction(instr) => match instr {
            InstructionV::Effect { op, labels, .. } => (op == EffectOp::Jump || op
                == EffectOp::Branch) && exists|k: int|
                0 <= k < labels.len() && !scan(p.functions[i].instrs).labels.contains_key(
                    #[trigger] labels[k],
                ),
            _ => false,
        },
        _ => false,
    }
}

/// Block `b` of function `i` ends in a call naming a function the program
/// does not define.
pub open spec fn block_missing_callee(p: ProgramV, i: int, b: int) -> bool {
    match block_term(p.functions[i], b) {
        CodeV::Instruction(instr) => is_call_instr(instr) && exists|k: int|
            0 <= k < instr_funcs(instr).len() && !has_func(p, #[trigger] instr_funcs(instr)[k]),
        _ => false,
    }
}

/// Every block of every function can be given edges.
pub open spec fn cfg_ok(p: ProgramV) -> bool {
    forall|i: int, b: int|
        0 <= i < p.functions.len() && 0 <= b < scan_blocks(p.functions[i].instrs).len()
            ==> #[trigger] block_ok(p, i, b)
}

/// With distinct names, the position of a function pins `func_index` down.
proof fn lemma_func_index(p: ProgramV, n: Seq<char>, ci: int)
    requires
        names_distinct(p),
        0 <= ci < p.functions.len(),
        p.functions[ci].name == n,
    ensures
        func_index(p, n) == ci,
{
    assert(has_func(p, n));
    let j = func_index(p, n);
    assert(0 <= j < p.functions.len() && p.functions[j].name == n);
}

/// Shared analysis state for a whole program: one record per function, in
/// program order, so that a record's position is its function's position.
#[derive(Debug)]
pub struct GlobalData {
    pub data: Vec<FunctionData>,
}

impl Default for GlobalData {
    /// A state with no function registered yet.
    fn default() -> (r: GlobalData)
        ensures
            r.data@.len() == 0,
    {
        GlobalData { data: Vec::new() }
    }
}

impl GlobalData {
    /// The state that `initial_fill` leaves: one empty record per function,
    /// carrying its name and position.
    pub open spec fn wf_initial(self, p: ProgramV) -> bool {
        &&& self.data@.len() == p.functions.len()
        &&& forall|i: int|
            0 <= i < p.functions.len() ==> {
                &&& (#[trigger] self.data@[i]).name@ == p.functions[i].name
                &&& self.data@[i].funcno == i
                &&& self.data@[i].unfilled()
                &&& self.data@[i].callers@ =~= Seq::<CFGPos>::empty()
            }
    }

    /// The state that `form_blocks` leaves: every record filled from its
    /// function's scan, and every caller table complete.
    pub open spec fn wf_resolved(self, p: ProgramV) -> bool {
        &&& self.data@.len() == p.functions.len()
        &&& forall|i: int|
            0 <= i < p.functions.len() ==> {
                &&& (#[trigger] self.data@[i]).name@ == p.functions[i].name
                &&& self.data@[i].funcno == i
                &&& self.data@[i].filled_from(p.functions[i].instrs)
                &&& poslist_view(self.data@[i].callers@) == spec_callers(p, i)
            }
    }

    /// Find the record of the function named `name`, by position.
    pub fn find_func(&self, name: &String) -> (r: Option<usize>)
        ensures
            match r {
                Option::Some(i) => i < self.data@.len() && self.data@[i as int].name@ == name@,
                Option::None => forall|i: int|
                    0 <= i < self.data@.len() ==> (#[trigger] self.data@[i]).name@ != name@,
            },
    {
        let mut i: usize = 0;
        while i < self.data.len()
            invariant
                i <= self.data@.len(),
                forall|j: int| 0 <= j < i ==> (#[trigger] self.data@[j]).name@ != name@,
            decreases self.data@.len() - i,
        {
            if self.data[i].name.eq(name) {
                return Some(i);
            }
            i = i + 1;
        }
        None
    }

    /// Register every function of the program: a fresh record per name, in
    /// program order. A name met twice is a fatal configuration error.
    pub fn initial_fill(&mut self, p: &Program) -> (r: Result<(), ResolveError>)
        requires
            old(self).data@.len() == 0,
        ensures
            match r {
                Result::Ok(()) => names_distinct(p@) && final(self).wf_initial(p@),
                Result::Err(e) => e == ResolveError::DuplicateFunction && !names_distinct(p@),
            },
    {
        let n = p.functions.len();
        let mut fno: usize = 0;
        while fno < n
            invariant
                n == p.functions.len(),
                fno <= n,
                self.data@.len() == fno,
                forall|i: int|
                    0 <= i < fno ==> {
                        &&& (#[trigger] self.data@[i]).name@ == p@.functions[i].name
                        &&& self.data@[i].funcno == i
                        &&& self.data@[i].unfilled()
                        &&& self.data@[i].callers@ =~= Seq::<CFGPos>::empty()
                    },
                forall|i: int, j: int|
                    0 <= i < j < fno ==> (#[trigger] p@.functions[i]).name != (
                    #[trigger] p@.functions[j]).name,
            decreases n - fno,
        {
            proof {
                assert(p@.functions[fno as int] == p.functions@[fno as int]@);
            }
            if self.find_func(&p.functions[fno].name).is_some() {
                return Err(ResolveError::DuplicateFunction);
            }
            proof {
                assert forall|i: int| 0 <= i < fno implies (#[trigger] p@.functions[i]).name != p@
                    .functions[fno as int].name by {
                    assert(self.data@[i].name@ == p@.functions[i].name);
                    assert(self.data@[i].name@ != p.functions@[fno as int].name@);
                }
            }
            let fd = FunctionData {
                funcno: fno,
                name: p.functions[fno].name.clone(),
                callers: Vec::new(),
                calls: Vec::new(),
                blocks: Vec::new(),
                labels: Vec::new(),
                returns: Vec::new(),
            };
            self.data.push(fd);
            fno = fno + 1;
        }
        Ok(())
    }

    /// Scan every function into its record, then post each (callee, block)
    /// call-site pair found into the callee's caller table; a callee name
    /// that no function carries is passed over here.
    pub fn form_blocks(&mut self, p: &Program)
        requires
            old(self).wf_initial(p@),
            names_distinct(p@),
            program_calls_ok(p@),
        ensures
            final(self).wf_resolved(p@),
    {
        let n = p.functions.len();
        let mut fno: usize = 0;
        while fno < n
            invariant
                n == p.functions.len(),
                fno <= n,
                names_distinct(p@),
                program_calls_ok(p@),
                self.data@.len() == p@.functions.len(),
                forall|i: int|
                    0 <= i < n ==> {
                        &&& (#[trigger] self.data@[i]).name@ == p@.functions[i].name
                        &&& self.data@[i].funcno == i
                        &&& poslist_view(self.data@[i].callers@) == spec_callers_upto(
                            p@,
                            i,
                            fno as int,
                        )
                    },
                forall|i: int|
                    0 <= i < fno ==> (#[trigger] self.data@[i]).filled_from(p@.functions[i].instrs),
                forall|i: int| fno <= i < n ==> (#[trigger] self.data@[i]).unfilled(),
            decreases n - fno,
        {
            let ghost pre = self.data@;
            proof {
                assert(p@.functions[fno as int] == p.functions@[fno as int]@);
            }
            let mut fd = self.data.remove(fno);
            let pairs = fd.populate(&p.functions[fno]);
            self.data.insert(fno, fd);
            proof {
                assert(self.data@ =~= pre.update(fno as int, self.data@[fno as int]));
            }
            let ghost fname = p@.functions[fno as int].name;
            let ghost fscan_pairs = scan(p@.functions[fno as int].instrs).pairs;
            let np = pairs.len();
            let mut k: usize = 0;
            while k < np
                invariant
                    n == p.functions.len(),
                    fno < n,
                    np == pairs@.len(),
                    k <= np,
                    names_distinct(p@),
                    pairs_view(pairs@) == scan(p@.functions[fno as int].instrs).pairs,
                    self.data@.len() == p@.functions.len(),
                    forall|i: int|
                        0 <= i < n ==> {
                            &&& (#[trigger] self.data@[i]).name@ == p@.functions[i].name
                            &&& self.data@[i].funcno == i
                            &&& poslist_view(self.data@[i].callers@) == spec_callers_upto(
                                p@,
                                i,
                                fno as int,
                            ).union(
                                pair_targets(fno as int, p@.functions[i].name, pairs@.take(k as int)),
                            )
                        },
                    forall|i: int|
                        0 <= i <= fno ==> (#[trigger] self.data@[i]).filled_from(
                            p@.functions[i].instrs,
                        ),
                    forall|i: int| fno < i < n ==> (#[trigger] self.data@[i]).unfilled(),
                decreases np - k,
            {
                proof {
                    assert(pairs@.take(k + 1).drop_last() =~= pairs@.take(k as int));
                    assert(pairs@.take(k + 1).last() == pairs@[k as int]);
                }
                let callee = pairs[k].0.clone();
                let bno = pairs[k].1;
                if let Some(ci) = self.find_func(&callee) {
                    let ghost pre2 = self.data@;
                    proof {
                        assert(pre2[ci as int].name@ == p@.functions[ci as int].name);
                        assert(p@.functions[ci as int].name == callee@);
                    }
                    let mut cfd = self.data.remove(ci);
                    let ghost pre_callers = cfd.callers@;
                    cfd.callers.push(CFGPos { funcno: fno, blockno: bno });
                    self.data.insert(ci, cfd);
                    proof {
                        assert(self.data@ =~= pre2.update(ci as int, self.data@[ci as int]));
                        assert(self.data@[ci as int].callers@.drop_last() =~= pre_callers);
                        assert(poslist_view(self.data@[ci as int].callers@) =~= poslist_view(
                            pre_callers,
                        ).insert((fno as int, bno as int)));
                        assert forall|i: int| 0 <= i < n implies poslist_view(
                            (#[trigger] self.data@[i]).callers@,
                        ) == spec_callers_upto(p@, i, fno as int).union(
                            pair_targets(fno as int, p@.functions[i].name, pairs@.take(k + 1)),
                        ) by {
                            if i == ci {
                                assert(p@.functions[i].name == callee@);
                                assert(pair_targets(fno as int, p@.functions[i].name, pairs@.take(k + 1))
                                    =~= pair_targets(
                                    fno as int,
                                    p@.functions[i].name,
                                    pairs@.take(k as int),
                                ).insert((fno as int, bno as int)));
                                assert(spec_callers_upto(p@, i, fno as int).union(
                                    pair_targets(
                                        fno as int,
                                        p@.functions[i].name,
                                        pairs@.take(k as int),
                                    ).insert((fno as int, bno as int)),
                                ) =~= spec_callers_upto(p@, i, fno as int).union(
                                    pair_targets(fno as int, p@.functions[i].name, pairs@.take(k as int)),
                                ).insert((fno as int, bno as int)));
                            } else {
                                assert(p@.functions[i].name != callee@);
                                assert(pair_targets(fno as int, p@.functions[i].name, pairs@.take(k + 1))
                                    =~= pair_targets(
                                    fno as int,
                                    p@.functions[i].name,
                                    pairs@.take(k as int),
                                ));
                            }
                        }
                    }
                } else {
                    proof {
                        assert forall|i: int| 0 <= i < n implies poslist_view(
                            (#[trigger] self.data@[i]).callers@,
                        ) == spec_callers_upto(p@, i, fno as int).union(
                            pair_targets(fno as int, p@.functions[i].name, pairs@.take(k + 1)),
                        ) by {
                            assert(self.data@[i].name@ == p@.functions[i].name);
                            assert(self.data@[i].name@ != callee@);
                            assert(pair_targets(fno as int, p@.functions[i].name, pairs@.take(k + 1))
                                =~= pair_targets(fno as int, p@.functions[i].name, pairs@.take(k as int)));
                        }
                    }
                }
                k = k + 1;
            }
            proof {
                assert(pairs@.take(np as int) =~= pairs@);
                assert forall|i: int| 0 <= i < n implies poslist_view(
                    (#[trigger] self.data@[i]).callers@,
                ) == spec_callers_upto(p@, i, fno + 1) by {
                    lemma_contrib(fno as int, p@.functions[i].name, pairs@);
                    assert(spec_callers_upto(p@, i, fno as int).union(
                        pair_targets(fno as int, p@.functions[i].name, pairs@),
                    ) =~= spec_callers_upto(p@, i, fno + 1));
                }
            }
            fno = fno + 1;
        }
        proof {
            assert forall|i: int| 0 <= i < n implies poslist_view(
                (#[trigger] self.data@[i]).callers@,
            ) == spec_callers(p@, i) by {
                assert(spec_callers_upto(p@, i, n as int) =~= spec_callers(p@, i));
            }
        }
    }

    /// Build the interprocedural control-flow graph: for function `i`, entry
    /// `i` of the result lists each of its blocks' successor positions. Fails
    /// if a jump or branch names an unknown label, or a call an unknown
    /// function; the run is then abandoned with no partial output.
    pub fn form_cfg(&self, p: &Program) -> (r: Result<Vec<Vec<Vec<CFGPos>>>, ResolveError>)
        requires
            self.wf_resolved(p@),
            names_distinct(p@),
        ensures
            match r {
                Result::Ok(c) => {
                    &&& cfg_ok(p@)
                    &&& c@.len() == p@.functions.len()
                    &&& forall|i: int|
                        0 <= i < c@.len() ==> (#[trigger] c@[i])@.len() == scan_blocks(
                            p@.functions[i].instrs,
                        ).len()
                    &&& forall|i: int, b: int|
                        0 <= i < c@.len() && 0 <= b < c@[i]@.len() ==> poslist_view(
                            #[trigger] c@[i]@[b]@,
                        ) == spec_succs(p@, i, b)
                },
                Result::Err(e) => {
                    &&& !cfg_ok(p@)
                    &&& (e == ResolveError::UndefinedLabel || e == ResolveError::UndefinedCallee)
                    &&& (e == ResolveError::UndefinedLabel ==> exists|i: int, b: int|
                        0 <= i < p@.functions.len() && 0 <= b < scan_blocks(
                            p@.functions[i].instrs,
                        ).len() && #[trigger] block_missing_label(p@, i, b))
                    &&& (e == ResolveError::UndefinedCallee ==> exists|i: int, b: int|
                        0 <= i < p@.functions.len() && 0 <= b < scan_blocks(
                            p@.functions[i].instrs,
                        ).len() && #[trigger] block_missing_callee(p@, i, b))
                },
            },
    {
        let n = p.functions.len();
        let mut res: Vec<Vec<Vec<CFGPos>>> = Vec::new();
        let mut fno: usize = 0;
        while fno < n
            invariant
                n == p.functions.len(),
                fno <= n,
                self.wf_resolved(p@),
                names_distinct(p@),
                res@.len() == fno,
                forall|i: int|
                    0 <= i < fno ==> (#[trigger] res@[i])@.len() == scan_blocks(
                        p@.functions[i].instrs,
                    ).len(),
                forall|i: int, b: int|
                    0 <= i < fno && 0 <= b < res@[i]@.len() ==> poslist_view(#[trigger] res@[i]@[b]@)
                        == spec_succs(p@, i, b),
                forall|i: int, b: int|
                    0 <= i < fno && 0 <= b < scan_blocks(p@.functions[i].instrs).len()
                        ==> #[trigger] block_ok(p@, i, b),
            decreases n - fno,
        {
            let ghost fv = p@.functions[fno as int];
            proof {
                assert(p@.functions[fno as int] == p.functions@[fno as int]@);
                assert(self.data@[fno as int].filled_from(fv.instrs));
                lemma_block_ranges(fv.instrs);
            }
            let f = &p.functions[fno];
            let fd = &self.data[fno];
            let nb = fd.blocks.len();
            proof {
                assert(ranges_view(fd.blocks@).len() == scan_blocks(fv.instrs).len());
            }
            let mut func_cfg: Vec<Vec<CFGPos>> = Vec::new();
            let mut bno: usize = 0;
            while bno < nb
                invariant
                    n == p.functions.len(),
                    fno < n,
                    self.wf_resolved(p@),
                    names_distinct(p@),
                    fv == p@.functions[fno as int],
                    f@ == fv,
                    *fd == self.data@[fno as int],
                    nb == fd.blocks@.len(),
                    nb == scan_blocks(fv.instrs).len(),
                    bno <= nb,
                    func_cfg@.len() == bno,
                    forall|b: int|
                        0 <= b < bno ==> poslist_view(#[trigger] func_cfg@[b]@) == spec_succs(
                            p@,
                            fno as int,
                            b,
                        ),
                    forall|b: int| 0 <= b < bno ==> #[trigger] block_ok(p@, fno as int, b),
                decreases nb - bno,
            {
                let ghost blocksv = scan_blocks(fv.instrs);
                let ghost st = scan(fv.instrs);
                proof {
                    lemma_block_ranges(fv.instrs);
                    assert(ranges_view(fd.blocks@)[bno as int] == blocksv[bno as int]);
                }
                let be = fd.blocks[bno].1;
                let te = be - 1;
                proof {
                    assert(be as int == blocksv[bno as int].1);
                    assert(0 <= te < fv.instrs.len());
                    assert(fv.instrs[te as int] == f.instrs@[te as int]@);
                    assert(block_term(fv, bno as int) == fv.instrs[te as int]);
                }
                let mut succs: Vec<CFGPos> = Vec::new();
                match &f.instrs[te] {
                    Code::Instruction(instr) => {
                        match instr {
                            Instruction::Value { op, funcs, .. } if *op == ValueOp::Call => {
                                match self.push_callee_targets(&mut succs, p, funcs) {
                                    Result::Ok(()) => (),
                                    Result::Err(e) => {
                                        proof {
                                            let k0 = choose|k: int|
                                                0 <= k < funcs.deep_view().len() && !has_func(
                                                    p@,
                                                    #[trigger] funcs.deep_view()[k],
                                                );
                                            assert(instr_funcs(instr@) == funcs.deep_view());
                                            assert(instr_funcs(instr@)[k0] == funcs.deep_view()[k0]);
                                            assert(!block_ok(p@, fno as int, bno as int));
                                            assert(block_missing_callee(p@, fno as int, bno as int));
                                        }
                                        return Err(e);
                                    },
                                }
                                if bno + 1 < nb {
                                    let ghost prev = succs@;
                                    succs.push(CFGPos { funcno: fno, blockno: bno + 1 });
                                    proof {
                                        assert(succs@.drop_last() =~= prev);
                                    }
                                }
                                assert(poslist_view(succs@) =~= spec_succs(p@, fno as int, bno as int));
                            },
                            Instruction::Effect { op, funcs, .. } if *op == EffectOp::Call => {
                                match self.push_callee_targets(&mut succs, p, funcs) {
                                    Result::Ok(()) => (),
                                    Result::Err(e) => {
                                        proof {
                                            let k0 = choose|k: int|
                                                0 <= k < funcs.deep_view().len() && !has_func(
                                                    p@,
                                                    #[trigger] funcs.deep_view()[k],
                                                );
                                            assert(instr_funcs(instr@) == funcs.deep_view());
                                            assert(instr_funcs(instr@)[k0] == funcs.deep_view()[k0]);
                                            assert(!block_ok(p@, fno as int, bno as int));
                                            assert(block_missing_callee(p@, fno as int, bno as int));
                                        }
                                        return Err(e);
                                    },
                                }
                                if bno + 1 < nb {
                                    let ghost prev = succs@;
                                    succs.push(CFGPos { funcno: fno, blockno: bno + 1 });
                                    proof {
                                        assert(succs@.drop_last() =~= prev);
                                    }
                                }
                                assert(poslist_view(succs@) =~= spec_succs(p@, fno as int, bno as int));
                            },
                            Instruction::Effect { op, labels, .. } if *op == EffectOp::Jump || *op
                                == EffectOp::Branch => {
                                let nl = labels.len();
                                let mut k: usize = 0;
                                while k < nl
                                    invariant
                                        self.wf_resolved(p@),
                                        fno < p@.functions.len(),
                                        bno < scan_blocks(fv.instrs).len(),
                                        fv == p@.functions[fno as int],
                                        *fd == self.data@[fno as int],
                                        st == scan(fv.instrs),
                                        nl == labels@.len(),
                                        k <= nl,
                                        block_term(fv, bno as int) == CodeV::Instruction(instr@),
                                        instr@ matches InstructionV::Effect { op: o2, labels: l2, .. }
                                            && (o2 == EffectOp::Jump || o2 == EffectOp::Branch)
                                            && l2 == labels.deep_view(),
                                        poslist_view(succs@) == label_targets(
                                            fno as int,
                                            st.labels,
                                            labels.deep_view().take(k as int),
                                        ),
                                        forall|k2: int|
                                            0 <= k2 < k ==> st.labels.contains_key(
                                                #[trigger] labels.deep_view()[k2],
                                            ),
                                    decreases nl - k,
                                {
                                    proof {
                                        assert(labels.deep_view().take(k + 1).drop_last()
                                            =~= labels.deep_view().take(k as int));
                                        assert(labels.deep_view()[k as int] == labels@[k as int]@);
                                        assert(self.data@[fno as int].filled_from(fv.instrs));
                                    }
                                    match assoc_get(&fd.labels, &labels[k]) {
                                        Option::Some(bl) => {
                                            let ghost prev = succs@;
                                            succs.push(CFGPos { funcno: fno, blockno: bl });
                                            proof {
                                                assert(succs@.drop_last() =~= prev);
                                            }
                                        },
                                        Option::None => {
                                            proof {
                                                assert(!st.labels.contains_key(
                                                    labels.deep_view()[k as int],
                                                ));
                                                assert(!block_ok(p@, fno as int, bno as int));
                                                assert(block_missing_label(
                                                    p@,
                                                    fno as int,
                                                    bno as int,
                                                ));
                                            }
                                            return Err(ResolveError::UndefinedLabel);
                                        },
                                    }
                                    k = k + 1;
                                }
                                proof {
                                    assert(labels.deep_view().take(nl as int)
                                        =~= labels.deep_view());
                                }
                                assert(poslist_view(succs@) =~= spec_succs(p@, fno as int, bno as int));
                            },
                            Instruction::Effect { op, .. } if *op == EffectOp::Return => {
                                let nc = fd.callers.len();
                                let mut k: usize = 0;
                                while k < nc
                                    invariant
                                        *fd == self.data@[fno as int],
                                        nc == fd.callers@.len(),
                                        k <= nc,
                                        poslist_view(succs@) == poslist_view(
                                            fd.callers@.take(k as int),
                                        ),
                                    decreases nc - k,
                                {
                                    proof {
                                        assert(fd.callers@.take(k + 1).drop_last() =~= fd.callers@
                                            .take(k as int));
                                    }
                                    let ghost prev = succs@;
                                    succs.push(fd.callers[k]);
                                    proof {
                                        assert(succs@.drop_last() =~= prev);
                                    }
                                    k = k + 1;
                                }
                                proof {
                                    assert(fd.callers@.take(nc as int) =~= fd.callers@);
                                    assert(self.data@[fno as int] == *fd);
                                    assert(poslist_view(fd.callers@) == spec_callers(
                                        p@,
                                        fno as int,
                                    ));
                                }
                                assert(poslist_view(succs@) =~= spec_succs(p@, fno as int, bno as int));
                            },
                            _ => {
                                proof {
                                    assert(poslist_view(succs@) =~= Set::<(int, int)>::empty());
                                }
                                assert(poslist_view(succs@) =~= spec_succs(p@, fno as int, bno as int));
                            },
                        }
                    },
                    Code::Label { .. } => {
                        proof {
                            assert(poslist_view(succs@) =~= Set::<(int, int)>::empty());
                        }
                        assert(poslist_view(succs@) =~= spec_succs(p@, fno as int, bno as int));
                    },
                }
                assert(block_ok(p@, fno as int, bno as int));
                func_cfg.push(succs);
                bno = bno + 1;
            }
            res.push(func_cfg);
            fno = fno + 1;
        }
        Ok(res)
    }

    /// Push the entry position of each callee the list names; fails on a
    /// callee that no function of the program carries.
    fn push_callee_targets(
        &self,
        succs: &mut Vec<CFGPos>,
        p: &Program,
        funcs: &Vec<String>,
    ) -> (r: Result<(), ResolveError>)
        requires
            self.wf_resolved(p@),
            names_distinct(p@),
        ensures
            match r {
                Result::Ok(()) => {
                    &&& poslist_view(final(succs)@) == poslist_view(old(succs)@).union(
                        callee_targets(p@, funcs.deep_view()),
                    )
                    &&& forall|k: int|
                        0 <= k < funcs.deep_view().len() ==> has_func(
                            p@,
                            #[trigger] funcs.deep_view()[k],
                        )
                },
                Result::Err(e) => {
                    &&& e == ResolveError::UndefinedCallee
                    &&& exists|k: int|
                        0 <= k < funcs.deep_view().len() && !has_func(
                            p@,
                            #[trigger] funcs.deep_view()[k],
                        )
                },
            },
    {
        let nf = funcs.len();
        let mut k: usize = 0;
        while k < nf
            invariant
                self.wf_resolved(p@),
                names_distinct(p@),
                nf == funcs@.len(),
                k <= nf,
                poslist_view(succs@) == poslist_view(old(succs)@).union(
                    callee_targets(p@, funcs.deep_view().take(k as int)),
                ),
                forall|k2: int|
                    0 <= k2 < k ==> has_func(p@, #[trigger] funcs.deep_view()[k2]),
            decreases nf - k,
        {
            proof {
                assert(funcs.deep_view().take(k + 1).drop_last() =~= funcs.deep_view().take(
                    k as int,
                ));
                assert(funcs.deep_view()[k as int] == funcs@[k as int]@);
            }
            match self.find_func(&funcs[k]) {
                Option::Some(ci) => {
                    proof {
                        assert(self.data@[ci as int].name@ == p@.functions[ci as int].name);
                        lemma_func_index(p@, funcs.deep_view()[k as int], ci as int);
                    }
                    let ghost prev = succs@;
                    succs.push(CFGPos { funcno: ci, blockno: 0 });
                    proof {
                        assert(succs@.drop_last() =~= prev);
                        assert(poslist_view(succs@) =~= poslist_view(old(succs)@).union(
                            callee_targets(p@, funcs.deep_view().take(k + 1)),
                        ));
                    }
                },
                Option::None => {
                    proof {
                        assert forall|i: int|
                            0 <= i < p@.functions.len() implies (#[trigger] p@.functions[i]).name
                            != funcs.deep_view()[k as int] by {
                            assert(self.data@[i].name@ == p@.functions[i].name);
                            assert(self.data@[i].name@ != funcs@[k as int]@);
                        }
                        assert(!has_func(p@, funcs.deep_view()[k as int]));
                    }
                    return Err(ResolveError::UndefinedCallee);
                },
            }
            k = k + 1;
        }
        proof {
            assert(funcs.deep_view().take(nf as int) =~= funcs.deep_view());
        }
        Ok(())
    }
}

} // verus!
