use liveness::algorithm::{chaotic_iter, mfp};
use liveness::analysis::{lv_entry, lv_entry_at, lv_exit, lv_exit_at, LVAnalysis};
use liveness::expression::{AExp, BExp, Variable};
use liveness::lattice::is_subset;
use liveness::program::builder::ScopedBuilder;
use liveness::program::Program;
use liveness::statement::builder::StatementBuilder;
use std::collections::HashSet;

const X: Variable = 0;
const Y: Variable = 1;
const Z: Variable = 2;
const T: Variable = 3;

fn set(vars: &[Variable]) -> HashSet<Variable> {
    vars.iter().cloned().collect()
}

fn sets(list: &[&[Variable]]) -> Vec<HashSet<Variable>> {
    list.iter().map(|vars| set(vars)).collect()
}

fn var(v: Variable) -> AExp {
    AExp::Variable(v)
}

fn op(lhs: AExp, sign: &str, rhs: AExp) -> AExp {
    AExp::ArithmeticOp(Box::new(lhs), sign.to_string(), Box::new(rhs))
}

fn positive(v: Variable) -> BExp {
    BExp::RelationalOp(var(v), ">".to_string(), AExp::Number(0))
}

/// [y := x + 1]^1
fn single() -> Program {
    Program::new(StatementBuilder::new(1).assignment(Y, op(var(X), "+", AExp::Number(1))).end())
}

/// while [x > 0]^1 do [x := x - y]^2; [z := x]^3
fn loop_then_use() -> Program {
    Program::new(
        StatementBuilder::new(1)
            .while_(positive(X))
            .assignment(X, op(var(X), "-", var(Y)))
            .end()
            .assignment(Z, var(X))
            .end(),
    )
}

/// while [x > 0]^1 do [y := z]^2
fn ends_in_loop() -> Program {
    Program::new(StatementBuilder::new(1).while_(positive(X)).assignment(Y, var(Z)).end().end())
}

/// [x := 1]^1; while [y > 0]^2 do (if [z > 0]^3 then [y := y - x]^4 else
/// (while [x > 0]^5 do [x := x - 1]^6; [skip]^7)); [z := y]^8
fn nested() -> Program {
    let b = ScopedBuilder::new(1)
        .assignment(X, AExp::Number(1))
        .begin_while(positive(Y))
        .begin_if(positive(Z))
        .assignment(Y, op(var(Y), "-", var(X)))
        .else_()
        .unwrap()
        .begin_while(positive(X))
        .assignment(X, op(var(X), "-", AExp::Number(1)))
        .end_while()
        .unwrap()
        .skip()
        .end_if()
        .unwrap()
        .end_while()
        .unwrap()
        .assignment(Z, var(Y));
    Program::new(b.end().unwrap())
}

/// while [t > 0]^1 do ([x := y]^2; while [z > 0]^3 do [skip]^4)
fn loop_in_last_loop() -> Program {
    let b = ScopedBuilder::new(1)
        .begin_while(positive(T))
        .assignment(X, var(Y))
        .begin_while(positive(Z))
        .skip()
        .end_while()
        .unwrap()
        .end_while()
        .unwrap();
    Program::new(b.end().unwrap())
}

/// while [t > 0]^1 do (while [z > 0]^2 do [y := y]^3)
fn loop_as_last_loop() -> Program {
    let b = ScopedBuilder::new(1)
        .begin_while(positive(T))
        .begin_while(positive(Z))
        .assignment(Y, var(Y))
        .end_while()
        .unwrap()
        .end_while()
        .unwrap();
    Program::new(b.end().unwrap())
}

fn all_programs() -> Vec<Program> {
    vec![
        single(),
        loop_then_use(),
        ends_in_loop(),
        nested(),
        loop_in_last_loop(),
        loop_as_last_loop(),
    ]
}

/// Whether, wherever an edge leads from `a` to a final label `l` and
/// another from `l` on to `m`, what is live before `m` and not overwritten
/// at `l` is live behind `a`.
fn final_flow_is_absorbed(p: &Program, lva: &LVAnalysis) -> bool {
    let flow = p.flow();
    let finals = p.final_labels();
    let mut holds = true;
    for &(a, l) in &flow {
        for &(from, m) in &flow {
            if from == l && finals.contains(&l) {
                let killed = liveness::analysis::kill_lv(p.at(l).unwrap());
                let kept = liveness::lattice::difference(lva.entry_at(m).unwrap(), &killed);
                holds = holds && is_subset(&kept, lva.exit_at(a).unwrap());
            }
        }
    }
    holds
}

fn solves_equations(p: &Program, lva: &LVAnalysis) -> bool {
    lv_exit(p, &lva.entry) == lva.exit && lv_entry(p, &lva.exit) == lva.entry
}

#[test]
fn single_block_program() {
    let p = single();
    for lva in [chaotic_iter::run(&p), mfp::run(&p)] {
        assert_eq!(lva.exit, sets(&[&[]]));
        assert_eq!(lva.entry, sets(&[&[X]]));
        assert_eq!(lva.exit_at(1), Some(&set(&[])));
        assert_eq!(lva.entry_at(1), Some(&set(&[X])));
    }
}

#[test]
fn single_skip_has_nothing_live() {
    let p = Program::new(StatementBuilder::new(1).skip().end());
    for lva in [chaotic_iter::run(&p), mfp::run(&p)] {
        assert_eq!(lva.exit, sets(&[&[]]));
        assert_eq!(lva.entry, sets(&[&[]]));
    }
}

#[test]
fn loop_followed_by_a_use() {
    let p = loop_then_use();
    assert!(p.isolated_exits());
    for lva in [chaotic_iter::run(&p), mfp::run(&p)] {
        assert_eq!(lva.entry, sets(&[&[X, Y], &[X, Y], &[X]]));
        assert_eq!(lva.exit, sets(&[&[X, Y], &[X, Y], &[]]));
    }
}

#[test]
fn nested_program() {
    let p = nested();
    assert_eq!(p.len, 8);
    assert!(p.isolated_exits());
    let lva = chaotic_iter::run(&p);
    assert_eq!(
        lva.entry,
        sets(&[&[Y, Z], &[X, Y, Z], &[X, Y, Z], &[X, Y, Z], &[X, Y, Z], &[X, Y, Z], &[X, Y, Z], &[Y]])
    );
    assert_eq!(
        lva.exit,
        sets(&[&[X, Y, Z], &[X, Y, Z], &[X, Y, Z], &[X, Y, Z], &[X, Y, Z], &[X, Y, Z], &[X, Y, Z], &[]])
    );
    assert_eq!(mfp::run(&p), lva);
}

#[test]
fn chaotic_iteration_on_a_program_that_ends_in_a_loop() {
    let p = ends_in_loop();
    let lva = chaotic_iter::run(&p);
    assert_eq!(lva.entry, sets(&[&[X], &[X, Z]]));
    assert_eq!(lva.exit, sets(&[&[], &[X]]));
}

#[test]
fn worklist_on_a_program_that_ends_in_a_loop() {
    let p = ends_in_loop();
    assert!(!p.isolated_exits());
    let lva = mfp::run(&p);
    assert_eq!(lva.entry, sets(&[&[X], &[X, Z]]));
    assert_eq!(lva.exit, sets(&[&[], &[X, Z]]));
    assert_eq!(mfp::solve(&p), sets(&[&[X, Z], &[X, Z]]));
}

#[test]
fn solvers_agree_where_exits_are_isolated() {
    for p in all_programs() {
        if p.isolated_exits() {
            let a = chaotic_iter::run(&p);
            let b = mfp::run(&p);
            assert!(a.same(&b));
            assert_eq!(a, b);
        }
    }
}

#[test]
fn solvers_agree_exactly_where_final_flow_is_absorbed() {
    let mut agreeing = 0;
    let mut differing = 0;
    for p in all_programs() {
        let a = chaotic_iter::run(&p);
        let b = mfp::run(&p);
        assert_eq!(a == b, final_flow_is_absorbed(&p, &a));
        if p.isolated_exits() {
            assert!(final_flow_is_absorbed(&p, &a));
        }
        if a == b {
            agreeing += 1;
        } else {
            differing += 1;
        }
    }
    assert_eq!(agreeing, 4);
    assert_eq!(differing, 2);
}

#[test]
fn solvers_may_agree_on_a_program_that_ends_in_a_loop() {
    let p = loop_as_last_loop();
    assert!(!p.isolated_exits());
    let a = chaotic_iter::run(&p);
    assert_eq!(a.entry, sets(&[&[T], &[Y, Z, T], &[Y, Z, T]]));
    assert_eq!(a.exit, sets(&[&[], &[Y, Z, T], &[Y, Z, T]]));
    assert_eq!(mfp::run(&p), a);
}

#[test]
fn another_round_adds_nothing_to_what_the_worklist_finds() {
    for p in all_programs() {
        let lva = mfp::run(&p);
        let exit = lv_exit(&p, &lva.entry);
        let entry = lv_entry(&p, &exit);
        for l in 1..=p.len {
            assert!(is_subset(&exit[l - 1], lva.exit_at(l).unwrap()));
            assert!(is_subset(&entry[l - 1], lva.entry_at(l).unwrap()));
        }
    }
}

#[test]
fn worklist_leaves_out_nothing_that_chaotic_iteration_finds() {
    for p in all_programs() {
        let a = chaotic_iter::run(&p);
        let b = mfp::run(&p);
        for l in 1..=p.len {
            assert!(is_subset(a.entry_at(l).unwrap(), b.entry_at(l).unwrap()));
            assert!(is_subset(a.exit_at(l).unwrap(), b.exit_at(l).unwrap()));
        }
    }
}

#[test]
fn chaotic_iteration_satisfies_both_equations() {
    for p in all_programs() {
        let lva = chaotic_iter::run(&p);
        assert!(solves_equations(&p, &lva));
        for l in 1..=p.len {
            assert_eq!(&lv_exit_at(&p, &lva.entry, l), lva.exit_at(l).unwrap());
            assert_eq!(&lv_entry_at(&p, &lva.exit, l), lva.entry_at(l).unwrap());
        }
    }
}

#[test]
fn worklist_satisfies_both_equations_where_exits_are_isolated() {
    for p in all_programs() {
        let lva = mfp::run(&p);
        if p.isolated_exits() {
            assert!(solves_equations(&p, &lva));
        }
        assert_eq!(lv_entry(&p, &lva.exit), lva.entry);
    }
    assert!(!solves_equations(&ends_in_loop(), &mfp::run(&ends_in_loop())));
}

#[test]
fn worklist_may_find_a_solution_that_is_not_the_least() {
    let p = loop_in_last_loop();
    assert_eq!(p.len, 4);
    assert!(!p.isolated_exits());
    let least = chaotic_iter::run(&p);
    assert_eq!(least.entry, sets(&[&[T], &[Y, Z, T], &[Z, T], &[Z, T]]));
    assert_eq!(least.exit, sets(&[&[], &[Z, T], &[Z, T], &[Z, T]]));
    let other = mfp::run(&p);
    assert_eq!(other.entry, sets(&[&[T], &[Y, Z, T], &[Y, Z, T], &[Y, Z, T]]));
    assert_eq!(other.exit, sets(&[&[], &[Y, Z, T], &[Y, Z, T], &[Y, Z, T]]));
    assert!(solves_equations(&p, &least));
    assert!(solves_equations(&p, &other));
    assert_eq!(mfp::solve(&p), sets(&[&[Y, Z, T], &[Y, Z, T], &[Y, Z, T], &[Y, Z, T]]));
}

#[test]
fn another_round_changes_nothing() {
    for p in all_programs() {
        let lva = chaotic_iter::run(&p);
        let exit = lv_exit(&p, &lva.entry);
        let entry = lv_entry(&p, &exit);
        assert_eq!(LVAnalysis { entry, exit }, lva);
        if p.isolated_exits() {
            let lva = mfp::run(&p);
            assert_eq!(mfp::present(&p, &lva.exit), lva);
        }
    }
}

#[test]
fn what_a_block_reads_is_live_before_it() {
    for p in all_programs() {
        for lva in [chaotic_iter::run(&p), mfp::run(&p)] {
            for l in 1..=p.len {
                let block = p.at(l).unwrap();
                let read = liveness::analysis::gen_lv(block.clone());
                let killed = liveness::analysis::kill_lv(block);
                let read_not_killed = liveness::lattice::difference(&read, &killed);
                assert!(is_subset(&read_not_killed, lva.entry_at(l).unwrap()));
                assert!(is_subset(&read, lva.entry_at(l).unwrap()));
            }
        }
    }
}

#[test]
fn lookup_outside_the_labels_is_none() {
    let lva = chaotic_iter::run(&loop_then_use());
    assert_eq!(lva.entry_at(0), None);
    assert_eq!(lva.exit_at(0), None);
    assert_eq!(lva.entry_at(4), None);
    assert_eq!(lva.exit_at(4), None);
    assert_eq!(lva.entry_at(3), Some(&set(&[X])));
    assert_eq!(lva.exit_at(3), Some(&set(&[])));
}

#[test]
fn analysis_clones_to_an_equal_value() {
    let lva = chaotic_iter::run(&nested());
    assert_eq!(lva.clone(), lva);
    assert!(lva.clone().same(&lva));
}

#[test]
fn new_analysis_has_nothing_live() {
    let lva = LVAnalysis::new(3);
    assert_eq!(lva.entry, sets(&[&[], &[], &[]]));
    assert_eq!(lva.exit, sets(&[&[], &[], &[]]));
    let none = LVAnalysis::new(0);
    assert_eq!(none.entry, Vec::<HashSet<Variable>>::new());
    assert!(none.same(&LVAnalysis::new(0)));
    assert!(!none.same(&lva));
}

#[test]
fn exit_at_is_empty_at_a_final_label_and_joins_successors_elsewhere() {
    let p = loop_then_use();
    let entry = sets(&[&[X], &[Y], &[Z]]);
    assert_eq!(lv_exit_at(&p, &entry, 1), set(&[Y, Z]));
    assert_eq!(lv_exit_at(&p, &entry, 2), set(&[X]));
    assert_eq!(lv_exit_at(&p, &entry, 3), set(&[]));
    assert_eq!(lv_exit(&p, &entry), sets(&[&[Y, Z], &[X], &[]]));
}

#[test]
fn exit_at_a_final_label_with_successors_is_empty() {
    let p = ends_in_loop();
    let entry = sets(&[&[X], &[Y, Z]]);
    assert_eq!(lv_exit_at(&p, &entry, 1), set(&[]));
    assert_eq!(lv_exit_at(&p, &entry, 2), set(&[X]));
}

#[test]
fn entry_at_takes_kill_away_and_adds_gen() {
    let p = loop_then_use();
    let exit = sets(&[&[Z], &[X, Z], &[X, Z]]);
    assert_eq!(lv_entry_at(&p, &exit, 1), set(&[X, Z]));
    assert_eq!(lv_entry_at(&p, &exit, 2), set(&[X, Y, Z]));
    assert_eq!(lv_entry_at(&p, &exit, 3), set(&[X]));
    assert_eq!(lv_entry(&p, &exit), sets(&[&[X, Z], &[X, Y, Z], &[X]]));
}

#[test]
fn present_is_one_round_from_the_entry_sets() {
    let p = loop_then_use();
    let ana = sets(&[&[], &[], &[]]);
    let lva = mfp::present(&p, &ana);
    assert_eq!(lva.exit, sets(&[&[X, Y], &[X], &[]]));
    assert_eq!(lva.entry, sets(&[&[X, Y], &[X, Y], &[X]]));
}
