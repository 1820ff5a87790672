use liveness::analysis::{gen_lv, kill_lv};
use liveness::block::{AssignmentBlock, Block, SkipBlock, TestBlock};
use liveness::expression::{AExp, BExp, Variable};
use liveness::lattice::{copy_set, difference, is_subset, same_family, same_set, union_into};
use std::collections::HashSet;

const X: Variable = 0;
const Y: Variable = 1;
const Z: Variable = 2;

fn set(vars: &[Variable]) -> HashSet<Variable> {
    vars.iter().cloned().collect()
}

fn var(v: Variable) -> AExp {
    AExp::Variable(v)
}

fn op(lhs: AExp, sign: &str, rhs: AExp) -> AExp {
    AExp::ArithmeticOp(Box::new(lhs), sign.to_string(), Box::new(rhs))
}

fn rel(lhs: AExp, sign: &str, rhs: AExp) -> BExp {
    BExp::RelationalOp(lhs, sign.to_string(), rhs)
}

#[test]
fn free_vars_of_a_number_is_empty() {
    assert_eq!(AExp::Number(42).free_vars(), set(&[]));
}

#[test]
fn free_vars_of_a_variable_is_itself() {
    assert_eq!(var(Y).free_vars(), set(&[Y]));
    assert_eq!(var(255).free_vars(), set(&[255]));
}

#[test]
fn free_vars_of_an_arithmetic_operation() {
    let e = op(op(var(X), "+", AExp::Number(1)), "*", op(var(Z), "-", var(X)));
    assert_eq!(e.free_vars(), set(&[X, Z]));
}

#[test]
fn free_vars_ignore_the_operator() {
    assert_eq!(op(var(X), "+", var(Y)).free_vars(), op(var(X), "/", var(Y)).free_vars());
}

#[test]
fn collect_vars_keeps_what_was_there() {
    let mut acc = set(&[Z]);
    op(var(X), "+", var(X)).collect_vars(&mut acc);
    assert_eq!(acc, set(&[X, Z]));
}

#[test]
fn free_vars_of_boolean_constants_is_empty() {
    assert_eq!(BExp::True.free_vars(), set(&[]));
    assert_eq!(BExp::False.free_vars(), set(&[]));
}

#[test]
fn free_vars_of_a_boolean_expression_reach_into_comparisons() {
    let b = BExp::BooleanOp(
        Box::new(BExp::Not(Box::new(rel(var(X), "<", AExp::Number(3))))),
        "&&".to_string(),
        Box::new(BExp::BooleanOp(
            Box::new(BExp::True),
            "||".to_string(),
            Box::new(rel(op(var(Y), "+", var(Z)), "==", var(Y))),
        )),
    );
    assert_eq!(b.free_vars(), set(&[X, Y, Z]));
}

#[test]
fn expressions_clone_to_equal_values() {
    let e = op(var(X), "+", op(AExp::Number(-7), "*", var(Y)));
    assert_eq!(e.clone(), e);
    let b = BExp::Not(Box::new(rel(e.clone(), ">", var(Z))));
    assert_eq!(b.clone(), b);
}

#[test]
fn block_constructors_and_labels() {
    let a = Block::assignment(3, X, var(Y));
    assert_eq!(a, Block::Assignment(AssignmentBlock { label: 3, var: X, expr: var(Y) }));
    assert_eq!(a.get_label(), 3);
    let s = Block::skip(4);
    assert_eq!(s, Block::Skip(SkipBlock { label: 4 }));
    assert_eq!(s.get_label(), 4);
    let t = Block::test(5, BExp::True);
    assert_eq!(t, Block::Test(TestBlock { label: 5, expr: BExp::True }));
    assert_eq!(t.get_label(), 5);
}

#[test]
fn relabelled_block_keeps_its_contents() {
    assert_eq!(Block::assignment(3, X, var(Y)).relabelled(9), Block::assignment(9, X, var(Y)));
    assert_eq!(Block::skip(1).relabelled(2), Block::skip(2));
    assert_eq!(Block::test(1, BExp::False).relabelled(7), Block::test(7, BExp::False));
    let b = Block::assignment(3, X, var(Y));
    assert_eq!(b.clone(), b);
}

#[test]
fn gen_is_what_a_block_reads() {
    assert_eq!(gen_lv(Block::assignment(1, X, op(var(Y), "*", var(Y)))), set(&[Y]));
    assert_eq!(gen_lv(Block::assignment(1, X, op(var(X), "+", var(Z)))), set(&[X, Z]));
    assert_eq!(gen_lv(Block::test(1, rel(var(Y), ">", var(X)))), set(&[X, Y]));
    assert_eq!(gen_lv(Block::skip(1)), set(&[]));
}

#[test]
fn kill_is_what_a_block_overwrites() {
    assert_eq!(kill_lv(Block::assignment(1, X, op(var(Y), "*", var(Y)))), set(&[X]));
    assert_eq!(kill_lv(Block::assignment(1, Z, AExp::Number(0))), set(&[Z]));
    assert_eq!(kill_lv(Block::test(1, rel(var(Y), ">", var(X)))), set(&[]));
    assert_eq!(kill_lv(Block::skip(1)), set(&[]));
}

#[test]
fn union_adds_the_other_set() {
    let mut acc = set(&[X, 200]);
    union_into(&mut acc, &set(&[Y, 200, 255]));
    assert_eq!(acc, set(&[X, Y, 200, 255]));
    let mut none = set(&[]);
    union_into(&mut none, &set(&[]));
    assert_eq!(none, set(&[]));
}

#[test]
fn difference_takes_the_other_set_away() {
    assert_eq!(difference(&set(&[X, Y, Z]), &set(&[Y, 9])), set(&[X, Z]));
    assert_eq!(difference(&set(&[X]), &set(&[X])), set(&[]));
    assert_eq!(difference(&set(&[0, 255]), &set(&[])), set(&[0, 255]));
}

#[test]
fn subset_and_equality_of_sets() {
    assert!(is_subset(&set(&[]), &set(&[])));
    assert!(is_subset(&set(&[X]), &set(&[X, Y])));
    assert!(!is_subset(&set(&[X, 255]), &set(&[X, Y])));
    assert!(same_set(&set(&[X, Y]), &set(&[Y, X])));
    assert!(!same_set(&set(&[X]), &set(&[X, Y])));
    assert!(!same_set(&set(&[X, 255]), &set(&[X])));
    assert_eq!(copy_set(&set(&[X, 77])), set(&[X, 77]));
}

#[test]
fn families_are_compared_place_by_place() {
    let a = vec![set(&[X]), set(&[])];
    let b = vec![set(&[X]), set(&[])];
    let c = vec![set(&[]), set(&[X])];
    let d = vec![set(&[X])];
    assert!(same_family(&a, &b));
    assert!(!same_family(&a, &c));
    assert!(!same_family(&a, &d));
    assert!(same_family(&Vec::new(), &Vec::new()));
}
