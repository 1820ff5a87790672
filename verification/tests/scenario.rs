use liveness::algorithm::{chaotic_iter, mfp};
use liveness::analysis::LVAnalysis;
use liveness::expression::{AExp, BExp, Variable};
use liveness::program::Program;
use liveness::statement::builder::StatementBuilder;
use std::collections::HashSet;

const X: Variable = 0;
const Y: Variable = 1;
const Z: Variable = 2;

fn var(v: Variable) -> AExp {
    AExp::Variable(v)
}

fn set(vars: &[Variable]) -> HashSet<Variable> {
    vars.iter().cloned().collect()
}

/// x:=2; y:=4; x:=1; if y>x then z:=y else z:=y*y endif; x:=z
fn example() -> Program {
    let stmt = StatementBuilder::new(1)
        .assignment(X, AExp::Number(2))
        .assignment(Y, AExp::Number(4))
        .assignment(X, AExp::Number(1))
        .if_then(BExp::RelationalOp(var(Y), ">".to_string(), var(X)))
        .assignment(Z, var(Y))
        .else_()
        .assignment(
            Z,
            AExp::ArithmeticOp(Box::new(var(Y)), "*".to_string(), Box::new(var(Y))),
        )
        .end()
        .assignment(X, var(Z))
        .end();
    Program::new(stmt)
}

fn check_example(lva: &LVAnalysis) {
    let entry: Vec<HashSet<Variable>> = vec![
        set(&[]),
        set(&[]),
        set(&[Y]),
        set(&[X, Y]),
        set(&[Y]),
        set(&[Y]),
        set(&[Z]),
    ];
    let exit: Vec<HashSet<Variable>> = vec![
        set(&[]),
        set(&[Y]),
        set(&[X, Y]),
        set(&[Y]),
        set(&[Z]),
        set(&[Z]),
        set(&[]),
    ];
    assert_eq!(lva.entry, entry);
    assert_eq!(lva.exit, exit);
}

#[test]
fn example_program_has_seven_labels() {
    let p = example();
    assert_eq!(p.len, 7);
    assert_eq!(p.init_label(), 1);
    for l in 1..=7 {
        assert_eq!(p.at(l).unwrap().get_label(), l);
    }
    assert!(p.at(0).is_none());
    assert!(p.at(8).is_none());
}

#[test]
fn example_program_flow() {
    let p = example();
    let flow: HashSet<(usize, usize)> = p.flow().into_iter().collect();
    let expected: HashSet<(usize, usize)> =
        [(1, 2), (2, 3), (3, 4), (4, 5), (4, 6), (5, 7), (6, 7)].into_iter().collect();
    assert_eq!(flow, expected);
    assert_eq!(p.flow().len(), 7);
    let flow_r: HashSet<(usize, usize)> = p.flow_r().into_iter().collect();
    let expected_r: HashSet<(usize, usize)> =
        [(2, 1), (3, 2), (4, 3), (5, 4), (6, 4), (7, 5), (7, 6)].into_iter().collect();
    assert_eq!(flow_r, expected_r);
    let finals: HashSet<usize> = [7].into_iter().collect();
    assert_eq!(p.final_labels(), finals);
    assert!(p.isolated_exits());
}

#[test]
fn example_program_chaotic_iteration() {
    let p = example();
    let lva = chaotic_iter::run(&p);
    check_example(&lva);
    assert_eq!(lva.exit_at(7), Some(&set(&[])));
    assert_eq!(lva.entry_at(7), Some(&set(&[Z])));
    assert!(lva.entry_at(4).unwrap().is_superset(&set(&[X, Y])));
}

#[test]
fn example_program_worklist() {
    let p = example();
    let lva = mfp::run(&p);
    check_example(&lva);
}

#[test]
fn example_program_solvers_agree() {
    let p = example();
    let a = chaotic_iter::run(&p);
    let b = mfp::run(&p);
    assert!(a.same(&b));
    assert_eq!(a, b);
}
