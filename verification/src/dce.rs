use vstd::prelude::*;

use crate::ir::{
    clone_arguments, clone_code, contains_string, Code, CodeV, Function, FunctionV, Instruction,
    InstructionV, Program,
};
use crate::resolver::{names_distinct, ranges_view, scan_blocks, GlobalData};

verus! {

/// The destination a code item defines, if it defines one.
pub open spec fn code_dest(c: CodeV) -> Option<Seq<char>> {
    match c {
        CodeV::Instruction(InstructionV::Constant { dest, .. }) => Option::Some(dest),
        CodeV::Instruction(InstructionV::Value { dest, .. }) => Option::Some(dest),
        _ => Option::None,
    }
}

/// Does a code item consume the variable `x` as an argument?
pub open spec fn code_uses(c: CodeV, x: Seq<char>) -> bool {
    match c {
        CodeV::Instruction(InstructionV::Value { args, .. }) => args.contains(x),
        CodeV::Instruction(InstructionV::Effect { args, .. }) => args.contains(x),
        _ => false,
    }
}

/// What a forward scan finds out about a defined variable.
pub ghost enum Fate {
    /// No later instruction consumes or redefines it.
    Unused,
    /// A later instruction consumes it before any redefinition.
    Used,
    /// The instruction at this index redefines it before any use.
    Rewritten(int),
}

/// The fate of variable `x` when the scan stands at index `j`: the first
/// later instruction that consumes `x` settles it as used; the first that
/// redefines `x` settles it as rewritten there; a consuming redefinition
/// counts as a use.
pub open spec fn fate_from(s: Seq<CodeV>, x: Seq<char>, j: int) -> Fate
    decreases s.len() - j,
{
    if j < 0 || j >= s.len() {
        Fate::Unused
    } else if code_uses(s[j], x) {
        Fate::Used
    } else if code_dest(s[j]) == Option::Some(x) {
        Fate::Rewritten(j)
    } else {
        fate_from(s, x, j + 1)
    }
}

/// Do indices `i` and `j` fall inside one of the given block ranges together?
pub open spec fn same_block(blocks: Seq<(int, int)>, i: int, j: int) -> bool {
    exists|k: int|
        0 <= k < blocks.len() && (#[trigger] blocks[k]).0 <= i < blocks[k].1 && blocks[k].0 <= j
            < blocks[k].1
}

/// Is the instruction at index `i` marked for removal? A definition is dead
/// when nothing ever consumes it, or when it is redefined before any use and
/// the redefinition stands in the same basic block.
pub open spec fn mark_at(s: Seq<CodeV>, blocks: Seq<(int, int)>, i: int) -> bool {
    match code_dest(s[i]) {
        Option::Some(x) => match fate_from(s, x, i + 1) {
            Fate::Unused => true,
            Fate::Used => false,
            Fate::Rewritten(j) => same_block(blocks, i, j),
        },
        Option::None => false,
    }
}

/// Does one full pass mark anything?
pub open spec fn has_mark(s: Seq<CodeV>, blocks: Seq<(int, int)>) -> bool {
    exists|i: int| 0 <= i < s.len() && #[trigger] mark_at(s, blocks, i)
}

/// The items from index `i` on that one pass does not mark, in order.
pub open spec fn keep_from(s: Seq<CodeV>, blocks: Seq<(int, int)>, i: int) -> Seq<CodeV>
    decreases s.len() - i,
{
    if i < 0 || i >= s.len() {
        Seq::empty()
    } else if mark_at(s, blocks, i) {
        keep_from(s, blocks, i + 1)
    } else {
        seq![s[i]] + keep_from(s, blocks, i + 1)
    }
}

/// The sequence after one pass: every marked item removed.
pub open spec fn keep_unmarked(s: Seq<CodeV>, blocks: Seq<(int, int)>) -> Seq<CodeV> {
    keep_from(s, blocks, 0)
}

/// One pass keeps at most as many items as remain, and strictly fewer when
/// something at or after `i` is marked.
proof fn lemma_keep_len(s: Seq<CodeV>, blocks: Seq<(int, int)>, i: int)
    requires
        0 <= i <= s.len(),
    ensures
        keep_from(s, blocks, i).len() <= s.len() - i,
        (exists|j: int| i <= j < s.len() && #[trigger] mark_at(s, blocks, j)) ==> keep_from(
            s,
            blocks,
            i,
        ).len() < s.len() - i,
    decreases s.len() - i,
{
    if i < s.len() {
        lemma_keep_len(s, blocks, i + 1);
        if !mark_at(s, blocks, i) {
            if exists|j: int| i <= j < s.len() && #[trigger] mark_at(s, blocks, j) {
                let j0 = choose|j: int| i <= j < s.len() && #[trigger] mark_at(s, blocks, j);
                assert(i + 1 <= j0 < s.len() && mark_at(s, blocks, j0));
            }
        }
    }
}

/// The result of dead-code elimination: passes repeat until one marks
/// nothing, each removing every instruction whose value is dead.
pub open spec fn spec_dce(s: Seq<CodeV>, blocks: Seq<(int, int)>) -> Seq<CodeV>
    decreases s.len(),
    via spec_dce_decreases
{
    if has_mark(s, blocks) {
        spec_dce(keep_unmarked(s, blocks), blocks)
    } else {
        s
    }
}

#[via_fn]
proof fn spec_dce_decreases(s: Seq<CodeV>, blocks: Seq<(int, int)>) {
    if has_mark(s, blocks) {
        lemma_keep_len(s, blocks, 0);
    }
}

/// DCE fixpoint convergence: once the passes have stopped marking, running
/// the whole elimination again changes nothing.
pub proof fn lemma_dce_idempotent(s: Seq<CodeV>, blocks: Seq<(int, int)>)
    ensures
        spec_dce(spec_dce(s, blocks), blocks) == spec_dce(s, blocks),
    decreases s.len(),
{
    if has_mark(s, blocks) {
        lemma_keep_len(s, blocks, 0);
        lemma_dce_idempotent(keep_unmarked(s, blocks), blocks);
    }
}

/// Decide whether indices `i` and `j` fall in one block range together.
fn same_block_exec(blocks: &Vec<(usize, usize)>, i: usize, j: usize) -> (r: bool)
    ensures
        r == same_block(ranges_view(blocks@), i as int, j as int),
{
    let mut k: usize = 0;
    while k < blocks.len()
        invariant
            k <= blocks@.len(),
            forall|k2: int|
                0 <= k2 < k ==> !((#[trigger] ranges_view(blocks@)[k2]).0 <= i as int && (
                i as int) < ranges_view(blocks@)[k2].1 && ranges_view(blocks@)[k2].0 <= j as int
                    && (j as int) < ranges_view(blocks@)[k2].1),
        decreases blocks@.len() - k,
    {
        let (s, e) = blocks[k];
        if s <= i && i < e && s <= j && j < e {
            proof {
                assert(ranges_view(blocks@)[k as int] == (s as int, e as int));
            }
            return true;
        }
        proof {
            assert(ranges_view(blocks@)[k as int] == (s as int, e as int));
        }
        k = k + 1;
    }
    false
}

/// One pass of marking: `r[i]` says whether instruction `i` is dead.
fn mark_pass(instrs: &Vec<Code>, blocks: &Vec<(usize, usize)>) -> (r: (Vec<bool>, bool))
    ensures
        r.0@.len() == instrs@.len(),
        forall|i: int|
            0 <= i < instrs@.len() ==> r.0@[i] == mark_at(
                instrs.deep_view(),
                ranges_view(blocks@),
                i,
            ),
        r.1 == has_mark(instrs.deep_view(), ranges_view(blocks@)),
{
    let ghost s = instrs.deep_view();
    let ghost bl = ranges_view(blocks@);
    let n = instrs.len();
    let mut marked: Vec<bool> = Vec::new();
    let mut any: bool = false;
    let mut i: usize = 0;
    while i < n
        invariant
            n == instrs@.len(),
            s == instrs.deep_view(),
            bl == ranges_view(blocks@),
            i <= n,
            marked@.len() == i,
            forall|i2: int| 0 <= i2 < i ==> marked@[i2] == mark_at(s, bl, i2),
            any == exists|i2: int| 0 <= i2 < i && #[trigger] mark_at(s, bl, i2),
        decreases n - i,
    {
        proof {
            assert(s[i as int] == instrs@[i as int]@);
        }
        let m: bool = match &instrs[i] {
            Code::Instruction(Instruction::Constant { dest, .. })
            | Code::Instruction(Instruction::Value { dest, .. }) => {
                let mut j: usize = i + 1;
                let mut used: bool = false;
                let mut rewritten: bool = false;
                let mut lrw: usize = 0;
                while j < n && !used && !rewritten
                    invariant
                        n == instrs@.len(),
                        s == instrs.deep_view(),
                        i < j <= n,
                        code_dest(s[i as int]) == Option::Some(dest@),
                        !used && !rewritten ==> fate_from(s, dest@, i + 1) == fate_from(
                            s,
                            dest@,
                            j as int,
                        ),
                        used ==> fate_from(s, dest@, i + 1) == Fate::Used,
                        rewritten ==> fate_from(s, dest@, i + 1) == Fate::Rewritten(lrw as int),
                        !(used && rewritten),
                    decreases n - j,
                {
                    proof {
                        assert(s[j as int] == instrs@[j as int]@);
                    }
                    match &instrs[j] {
                        Code::Instruction(Instruction::Value { args, dest: d2, .. }) => {
                            if contains_string(args, dest) {
                                used = true;
                            } else if d2.eq(dest) {
                                rewritten = true;
                                lrw = j;
                            }
                        },
                        Code::Instruction(Instruction::Effect { args, .. }) => {
                            if contains_string(args, dest) {
                                used = true;
                            }
                        },
                        Code::Instruction(Instruction::Constant { dest: d2, .. }) => {
                            if d2.eq(dest) {
                                rewritten = true;
                                lrw = j;
                            }
                        },
                        Code::Label { .. } => {},
                    }
                    j = j + 1;
                }
                if used {
                    false
                } else if rewritten {
                    same_block_exec(blocks, i, lrw)
                } else {
                    assert(fate_from(s, dest@, i + 1) == Fate::Unused);
                    true
                }
            },
            _ => false,
        };
        marked.push(m);
        if m {
            proof {
                assert(mark_at(s, bl, i as int));
            }
            any = true;
        }
        i = i + 1;
    }
    (marked, any)
}

/// Strip dead definitions from one function body: scan, mark, remove, and
/// repeat until a pass marks nothing. The scan is block-blind except that a
/// redefinition only kills an earlier definition inside its own block.
pub fn function_dce(instrs: &Vec<Code>, blocks: &Vec<(usize, usize)>) -> (r: Vec<Code>)
    ensures
        r.deep_view() == spec_dce(instrs.deep_view(), ranges_view(blocks@)),
{
    let ghost bl = ranges_view(blocks@);
    let mut cur: Vec<Code> = crate::ir::clone_codes(instrs);
    loop
        invariant
            bl == ranges_view(blocks@),
            spec_dce(cur.deep_view(), bl) == spec_dce(instrs.deep_view(), bl),
        decreases cur@.len(),
    {
        let ghost s = cur.deep_view();
        let (marked, any) = mark_pass(&cur, blocks);
        if !any {
            proof {
                assert(spec_dce(s, bl) == s);
            }
            return cur;
        }
        let n = cur.len();
        let mut kept: Vec<Code> = Vec::new();
        proof {
            assert(kept.deep_view() =~= Seq::<CodeV>::empty());
            assert(keep_from(s, bl, 0) =~= kept.deep_view() + keep_from(s, bl, 0));
        }
        let mut i: usize = 0;
        while i < n
            invariant
                n == cur@.len(),
                s == cur.deep_view(),
                bl == ranges_view(blocks@),
                i <= n,
                marked@.len() == n,
                forall|i2: int| 0 <= i2 < n ==> marked@[i2] == mark_at(s, bl, i2),
                keep_from(s, bl, 0) == kept.deep_view() + keep_from(s, bl, i as int),
            decreases n - i,
        {
            let ghost prev = kept.deep_view();
            if !marked[i] {
                kept.push(clone_code(&cur[i]));
                proof {
                    assert(s[i as int] == cur@[i as int]@);
                    assert(kept.deep_view() =~= prev.push(s[i as int]));
                    assert(prev + keep_from(s, bl, i as int) =~= kept.deep_view() + keep_from(
                        s,
                        bl,
                        i + 1,
                    ));
                }
            }
            i = i + 1;
        }
        proof {
            assert(keep_from(s, bl, n as int) =~= Seq::<CodeV>::empty());
            assert(kept.deep_view() =~= keep_unmarked(s, bl));
            lemma_keep_len(s, bl, 0);
        }
        cur = kept;
    }
}

/// Strip dead definitions from every function of the program, leaving names,
/// formal parameters and return types untouched.
pub fn global_dce(p: &Program, d: &GlobalData) -> (r: Program)
    requires
        d.wf_resolved(p@),
        names_distinct(p@),
    ensures
        r@.functions.len() == p@.functions.len(),
        forall|i: int|
            0 <= i < p@.functions.len() ==> (#[trigger] r@.functions[i]) == (FunctionV {
                instrs: spec_dce(
                    p@.functions[i].instrs,
                    scan_blocks(p@.functions[i].instrs),
                ),
                ..p@.functions[i]
            }),
{
    let n = p.functions.len();
    let mut funcs: Vec<Function> = Vec::new();
    let mut fno: usize = 0;
    while fno < n
        invariant
            n == p.functions.len(),
            fno <= n,
            d.wf_resolved(p@),
            names_distinct(p@),
            funcs.deep_view().len() == fno,
            forall|i: int|
                0 <= i < fno ==> (#[trigger] funcs.deep_view()[i]) == (FunctionV {
                    instrs: spec_dce(
                        p@.functions[i].instrs,
                        scan_blocks(p@.functions[i].instrs),
                    ),
                    ..p@.functions[i]
                }),
        decreases n - fno,
    {
        let ghost fv = p@.functions[fno as int];
        proof {
            assert(p@.functions[fno as int] == p.functions@[fno as int]@);
        }
        let f = &p.functions[fno];
        let fd = match d.find_func(&f.name) {
            Option::Some(j) => {
                proof {
                    assert(d.data@[j as int].name@ == p@.functions[j as int].name);
                    assert(d.data@[j as int].name@ == fv.name);
                    if j as int != fno as int {
                        assert(p@.functions[j as int].name == p@.functions[fno as int].name);
                        assert(false);
                    }
                }
                &d.data[j]
            },
            Option::None => {
                proof {
                    assert(d.data@[fno as int].name@ == fv.name);
                    assert(false);
                }
                &d.data[0]
            },
        };
        proof {
            assert(d.data@[fno as int].filled_from(fv.instrs));
            assert(ranges_view(fd.blocks@) == scan_blocks(fv.instrs));
        }
        let new_instrs = function_dce(&f.instrs, &fd.blocks);
        let new_f = Function {
            name: f.name.clone(),
            args: clone_arguments(&f.args),
            return_type: f.return_type,
            instrs: new_instrs,
        };
        let ghost prev = funcs.deep_view();
        funcs.push(new_f);
        proof {
            assert(funcs.deep_view() =~= prev.push(funcs@[fno as int]@));
            assert(funcs.deep_view()[fno as int] =~= (FunctionV {
                instrs: spec_dce(fv.instrs, scan_blocks(fv.instrs)),
                ..fv
            }));
        }
        fno = fno + 1;
    }
    let r = Program { functions: funcs };
    r
}

} // verus!
