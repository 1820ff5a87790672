use liveness::block::{Block, TestBlock};
use liveness::expression::{AExp, BExp, Variable};
use liveness::flow::{blocks, final_labels, flow, flow_r, holds_label};
use liveness::program::{Program, ProgramError};
use liveness::statement::builder::StatementBuilder;
use liveness::statement::Statement;
use std::collections::HashSet;

const X: Variable = 0;
const Y: Variable = 1;

fn atom(label: usize) -> Statement {
    Statement::Atom(Block::skip(label))
}

fn seq(a: Statement, b: Statement) -> Statement {
    Statement::Sequence(Box::new(a), Box::new(b))
}

fn guard(label: usize) -> TestBlock {
    TestBlock { label, expr: BExp::True }
}

fn edges(list: &[(usize, usize)]) -> HashSet<(usize, usize)> {
    list.iter().cloned().collect()
}

fn labels(list: &[usize]) -> HashSet<usize> {
    list.iter().cloned().collect()
}

/// while [true]^1 do (if [true]^2 then [skip]^3 else [skip]^4); [skip]^5
fn nested() -> Statement {
    seq(
        Statement::While(
            guard(1),
            Box::new(Statement::IfThenElse(guard(2), Box::new(atom(3)), Box::new(atom(4)))),
        ),
        atom(5),
    )
}

#[test]
fn relabel_numbers_blocks_in_order_of_execution() {
    let stmt = seq(
        Statement::While(
            guard(0),
            Box::new(Statement::IfThenElse(guard(0), Box::new(atom(0)), Box::new(atom(0)))),
        ),
        atom(0),
    );
    let (relabelled, next) = Program::relabel(stmt, 1);
    assert_eq!(relabelled, nested());
    assert_eq!(next, 6);
}

#[test]
fn relabel_starts_where_it_is_told() {
    let (relabelled, next) = Program::relabel(seq(atom(9), seq(atom(9), atom(1))), 10);
    assert_eq!(relabelled, seq(atom(10), seq(atom(11), atom(12))));
    assert_eq!(next, 13);
}

#[test]
fn relabel_keeps_what_the_blocks_hold() {
    let stmt = seq(
        Statement::Atom(Block::assignment(0, X, AExp::Variable(Y))),
        Statement::Atom(Block::test(0, BExp::False)),
    );
    let (relabelled, next) = Program::relabel(stmt, 1);
    assert_eq!(
        relabelled,
        seq(
            Statement::Atom(Block::assignment(1, X, AExp::Variable(Y))),
            Statement::Atom(Block::test(2, BExp::False)),
        )
    );
    assert_eq!(next, 3);
}

#[test]
fn new_program_is_labelled_from_one() {
    let p = Program::new(seq(atom(7), seq(atom(7), atom(7))));
    assert_eq!(p.len, 3);
    assert_eq!(p.contents, seq(atom(1), seq(atom(2), atom(3))));
    assert!(p.is_valid());
    assert_eq!(p.init_label(), 1);
}

#[test]
fn new_program_keeps_a_labelled_tree() {
    let p = Program::new(nested());
    assert_eq!(p.contents, nested());
    assert_eq!(p.len, 5);
}

#[test]
fn labels_of_a_program_are_one_to_len() {
    let p = Program::new(nested());
    let found: Vec<usize> = p.blocks().iter().map(|b| b.get_label()).collect();
    assert_eq!(found, vec![1, 2, 3, 4, 5]);
    for l in 1..=p.len {
        assert_eq!(p.at(l).map(|b| b.get_label()), Some(l));
    }
}

#[test]
fn program_clones_to_an_equal_value() {
    let p = Program::new(nested());
    assert_eq!(p.clone(), p);
}

#[test]
fn try_new_rejects_an_empty_statement() {
    assert_eq!(Program::try_new(Statement::Empty), Err(ProgramError::Incomplete));
    assert_eq!(Program::try_new(seq(atom(1), Statement::Empty)), Err(ProgramError::Incomplete));
    assert_eq!(
        Program::try_new(Statement::While(guard(1), Box::new(Statement::Empty))),
        Err(ProgramError::Incomplete)
    );
}

#[test]
fn try_new_accepts_a_complete_statement() {
    let p = Program::try_new(seq(atom(0), atom(0))).unwrap();
    assert_eq!(p.len, 2);
    assert_eq!(p.contents, seq(atom(1), atom(2)));
}

#[test]
fn is_valid_rejects_gaps_duplicates_and_empty() {
    assert!(Program { contents: seq(atom(1), atom(2)), len: 2 }.is_valid());
    assert!(!Program { contents: seq(atom(1), atom(3)), len: 2 }.is_valid());
    assert!(!Program { contents: seq(atom(1), atom(1)), len: 2 }.is_valid());
    assert!(!Program { contents: seq(atom(2), atom(3)), len: 2 }.is_valid());
    assert!(!Program { contents: seq(atom(1), atom(2)), len: 3 }.is_valid());
    assert!(!Program { contents: seq(atom(1), Statement::Empty), len: 1 }.is_valid());
    assert!(!Program { contents: Statement::Empty, len: 0 }.is_valid());
}

#[test]
fn at_finds_blocks_and_guards() {
    let p = Program::new(nested());
    assert_eq!(p.at(1), Some(Block::Test(guard(1))));
    assert_eq!(p.at(2), Some(Block::Test(guard(2))));
    assert_eq!(p.at(3), Some(Block::skip(3)));
    assert_eq!(p.at(4), Some(Block::skip(4)));
    assert_eq!(p.at(5), Some(Block::skip(5)));
}

#[test]
fn at_finds_the_first_block_where_labels_repeat() {
    let p = Program { contents: seq(atom(2), Statement::While(guard(2), Box::new(atom(7)))), len: 3 };
    assert_eq!(p.at(2), Some(Block::skip(2)));
    assert_eq!(p.at(7), Some(Block::skip(7)));
    assert_eq!(p.at(1), None);
}

#[test]
fn at_outside_the_labels_is_none() {
    let p = Program::new(nested());
    assert_eq!(p.at(0), None);
    assert_eq!(p.at(6), None);
    assert_eq!(p.at(usize::MAX), None);
}

#[test]
fn stmt_at_finds_the_first_block_with_the_label() {
    let stmt = seq(
        Statement::Atom(Block::assignment(2, X, AExp::Number(1))),
        seq(atom(2), Statement::While(guard(4), Box::new(atom(2)))),
    );
    assert_eq!(Program::stmt_at(&stmt, 2), Some(Block::assignment(2, X, AExp::Number(1))));
    assert_eq!(Program::stmt_at(&stmt, 4), Some(Block::Test(guard(4))));
    assert_eq!(Program::stmt_at(&stmt, 1), None);
    assert_eq!(Program::stmt_at(&Statement::Empty, 1), None);
    let branches = Statement::IfThenElse(guard(1), Box::new(atom(5)), Box::new(atom(6)));
    assert_eq!(Program::stmt_at(&branches, 6), Some(Block::skip(6)));
    assert_eq!(Program::stmt_at(&branches, 5), Some(Block::skip(5)));
    assert_eq!(Program::stmt_at(&branches, 1), Some(Block::Test(guard(1))));
}

#[test]
fn blocks_come_in_order_of_execution() {
    let p = Program::new(nested());
    assert_eq!(
        p.blocks(),
        vec![
            Block::Test(guard(1)),
            Block::Test(guard(2)),
            Block::skip(3),
            Block::skip(4),
            Block::skip(5)
        ]
    );
    assert_eq!(blocks(&Statement::Empty), Vec::new());
}

#[test]
fn single_block_has_no_flow_and_one_final_label() {
    let p = Program::new(atom(0));
    assert_eq!(p.len, 1);
    assert_eq!(p.flow(), Vec::new());
    assert_eq!(p.flow_r(), Vec::new());
    assert_eq!(p.final_labels(), labels(&[1]));
    assert!(p.isolated_exits());
}

#[test]
fn flow_of_a_sequence_joins_its_parts() {
    let stmt = seq(atom(1), seq(atom(2), atom(3)));
    assert_eq!(flow(&stmt).into_iter().collect::<HashSet<_>>(), edges(&[(1, 2), (2, 3)]));
    assert_eq!(final_labels(&stmt), vec![3]);
}

#[test]
fn flow_of_an_if_leaves_the_guard_for_both_branches() {
    let stmt = Statement::IfThenElse(guard(1), Box::new(seq(atom(2), atom(3))), Box::new(atom(4)));
    assert_eq!(
        flow(&stmt).into_iter().collect::<HashSet<_>>(),
        edges(&[(1, 2), (1, 4), (2, 3)])
    );
    assert_eq!(final_labels(&stmt).into_iter().collect::<HashSet<_>>(), labels(&[3, 4]));
}

#[test]
fn flow_of_a_while_returns_to_the_guard() {
    let stmt = Statement::While(guard(1), Box::new(seq(atom(2), atom(3))));
    assert_eq!(
        flow(&stmt).into_iter().collect::<HashSet<_>>(),
        edges(&[(1, 2), (2, 3), (3, 1)])
    );
    assert_eq!(final_labels(&stmt), vec![1]);
}

#[test]
fn flow_of_nested_statements() {
    let p = Program::new(nested());
    assert_eq!(
        p.flow().into_iter().collect::<HashSet<_>>(),
        edges(&[(1, 2), (2, 3), (2, 4), (3, 1), (4, 1), (1, 5)])
    );
    assert_eq!(
        p.flow_r().into_iter().collect::<HashSet<_>>(),
        edges(&[(2, 1), (3, 2), (4, 2), (1, 3), (1, 4), (5, 1)])
    );
    assert_eq!(p.final_labels(), labels(&[5]));
    assert!(p.isolated_exits());
}

#[test]
fn flow_comes_in_a_fixed_order_without_repetition() {
    let p = Program::new(nested());
    assert_eq!(p.flow(), vec![(2, 3), (2, 4), (1, 2), (3, 1), (4, 1), (1, 5)]);
    assert_eq!(p.flow_r(), vec![(3, 2), (4, 2), (2, 1), (1, 3), (1, 4), (5, 1)]);
    assert_eq!(flow(&nested()), p.flow());
    assert_eq!(flow_r(&nested()), p.flow_r());
}

#[test]
fn flow_holds_an_edge_once_where_labels_repeat() {
    let stmt = seq(seq(atom(1), atom(2)), seq(atom(1), atom(2)));
    assert_eq!(flow(&stmt), vec![(1, 2), (2, 1)]);
    assert_eq!(final_labels(&stmt), vec![2]);
}

#[test]
fn program_that_ends_in_a_loop_has_no_isolated_exits() {
    let p = Program::new(Statement::While(guard(0), Box::new(atom(0))));
    assert_eq!(p.final_labels(), labels(&[1]));
    assert_eq!(p.flow().into_iter().collect::<HashSet<_>>(), edges(&[(1, 2), (2, 1)]));
    assert!(!p.isolated_exits());
    let q = Program::new(Statement::IfThenElse(
        guard(0),
        Box::new(atom(0)),
        Box::new(Statement::While(guard(0), Box::new(atom(0)))),
    ));
    assert_eq!(q.final_labels(), labels(&[2, 3]));
    assert!(!q.isolated_exits());
}

#[test]
fn holds_label_looks_through_the_vector() {
    assert!(holds_label(&vec![3, 1, 2], 1));
    assert!(!holds_label(&vec![3, 1, 2], 4));
    assert!(!holds_label(&Vec::new(), 0));
}

#[test]
fn built_program_keeps_the_labels_of_the_builder() {
    let stmt = StatementBuilder::new(1)
        .assignment(X, AExp::Number(2))
        .while_(BExp::True)
        .skip()
        .end()
        .end();
    let copy = stmt.clone();
    let p = Program::new(stmt);
    assert_eq!(p.contents, copy);
    assert_eq!(p.len, 3);
}
