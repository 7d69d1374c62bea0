use vstd::prelude::*;

use crate::dce::code_dest;
use crate::ir::{contains_string, Code, CodeV, Instruction, Program};

verus! {

/// Is `x` defined by an instruction among the first `n` items of `s`?
pub open spec fn defined_before(s: Seq<CodeV>, n: int, x: Seq<char>) -> bool {
    exists|j: int| 0 <= j < n && #[trigger] code_dest(s[j]) == Option::Some(x)
}

/// The names defined by the constant and value instructions of a body.
pub open spec fn defined_vars(s: Seq<CodeV>) -> Set<Seq<char>> {
    Set::new(
        |x: Seq<char>|
            exists|j: int| 0 <= j < s.len() && #[trigger] code_dest(s[j]) == Option::Some(x),
    )
}

/// For every function of the program, in program order, the set of variable
/// names its constant and value instructions define: each name once, in the
/// order of its first definition.
pub fn build_var_map(v: Program) -> (r: Vec<(String, Vec<String>)>)
    ensures
        r@.len() == v@.functions.len(),
        forall|i: int|
            0 <= i < r@.len() ==> {
                &&& (#[trigger] r@[i]).0@ == v@.functions[i].name
                &&& forall|x: Seq<char>|
                    r@[i].1.deep_view().contains(x) == defined_vars(
                        v@.functions[i].instrs,
                    ).contains(x)
                &&& forall|a: int, b: int|
                    0 <= a < b < r@[i].1.deep_view().len() ==> r@[i].1.deep_view()[a] != r@[i]
                        .1.deep_view()[b]
            },
{
    let mut r: Vec<(String, Vec<String>)> = Vec::new();
    let nf = v.functions.len();
    let mut fno: usize = 0;
    while fno < nf
        invariant
            nf == v.functions@.len(),
            fno <= nf,
            r@.len() == fno,
            forall|i: int|
                0 <= i < fno ==> {
                    &&& (#[trigger] r@[i]).0@ == v@.functions[i].name
                    &&& forall|x: Seq<char>|
                        r@[i].1.deep_view().contains(x) == defined_vars(
                            v@.functions[i].instrs,
                        ).contains(x)
                    &&& forall|a: int, b: int|
                        0 <= a < b < r@[i].1.deep_view().len() ==> r@[i].1.deep_view()[a] != r@[i]
                            .1.deep_view()[b]
                },
        decreases nf - fno,
    {
        let ghost s = v@.functions[fno as int].instrs;
        proof {
            assert(v@.functions[fno as int] == v.functions@[fno as int]@);
        }
        let f = &v.functions[fno];
        let n = f.instrs.len();
        let mut vars: Vec<String> = Vec::new();
        let mut ino: usize = 0;
        while ino < n
            invariant
                n == f.instrs@.len(),
                s == f@.instrs,
                f@ == v@.functions[fno as int],
                fno < v.functions@.len(),
                f == &v.functions[fno as int],
                ino <= n,
                forall|a: int|
                    0 <= a < vars.deep_view().len() ==> defined_before(
                        s,
                        ino as int,
                        #[trigger] vars.deep_view()[a],
                    ),
                forall|j: int|
                    0 <= j < ino ==> match #[trigger] code_dest(s[j]) {
                        Option::Some(x) => vars.deep_view().contains(x),
                        Option::None => true,
                    },
                forall|a: int, b: int|
                    0 <= a < b < vars.deep_view().len() ==> vars.deep_view()[a]
                        != vars.deep_view()[b],
            decreases n - ino,
        {
            proof {
                assert(s[ino as int] == f.instrs@[ino as int]@);
            }
            match &f.instrs[ino] {
                Code::Instruction(Instruction::Constant { dest, .. })
                | Code::Instruction(Instruction::Value { dest, .. }) => {
                    let ghost prev = vars.deep_view();
                    if !contains_string(&vars, dest) {
                        vars.push(dest.clone());
                        proof {
                            assert(vars.deep_view() =~= prev.push(dest@));
                            assert(code_dest(s[ino as int]) == Option::Some(dest@));
                            assert(defined_before(s, ino + 1, dest@));
                            assert forall|a: int|
                                0 <= a < vars.deep_view().len() implies defined_before(
                                s,
                                ino + 1,
                                #[trigger] vars.deep_view()[a],
                            ) by {
                                if a < prev.len() {
                                    assert(prev[a] == vars.deep_view()[a]);
                                    assert(defined_before(s, ino as int, prev[a]));
                                    let j = choose|j: int|
                                        0 <= j < ino && #[trigger] code_dest(s[j])
                                            == Option::Some(prev[a]);
                                    assert(code_dest(s[j]) == Option::Some(
                                        vars.deep_view()[a],
                                    ));
                                } else {
                                    assert(vars.deep_view()[a] == dest@);
                                }
                            }
                            assert forall|j: int|
                                0 <= j < ino + 1 implies (match #[trigger] code_dest(s[j]) {
                                Option::Some(x) => vars.deep_view().contains(x),
                                Option::None => true,
                            }) by {
                                if j < ino as int {
                                    match code_dest(s[j]) {
                                        Option::Some(x) => {
                                            assert(prev.contains(x));
                                            let a = choose|a: int|
                                                0 <= a < prev.len() && prev[a] == x;
                                            assert(vars.deep_view()[a] == x);
                                            assert(vars.deep_view().contains(x));
                                        },
                                        Option::None => {},
                                    }
                                } else {
                                    assert(vars.deep_view()[prev.len() as int] == dest@);
                                    assert(vars.deep_view().contains(dest@));
                                }
                            }
                        }
                    } else {
                        proof {
                            assert(code_dest(s[ino as int]) == Option::Some(dest@));
                        }
                    }
                },
                _ => {},
            }
            ino = ino + 1;
        }
        proof {
            assert forall|x: Seq<char>| vars.deep_view().contains(x) == defined_vars(s).contains(
                x,
            ) by {
                if vars.deep_view().contains(x) {
                    let a = choose|a: int|
                        0 <= a < vars.deep_view().len() && vars.deep_view()[a] == x;
                    assert(defined_before(s, n as int, vars.deep_view()[a]));
                }
                if defined_vars(s).contains(x) {
                    let j = choose|j: int|
                        0 <= j < s.len() && #[trigger] code_dest(s[j]) == Option::Some(x);
                    assert(vars.deep_view().contains(x));
                }
            }
        }
        let name = f.name.clone();
        r.push((name, vars));
        fno = fno + 1;
    }
    r
}

} // verus!
