use liveness::block::{AssignmentBlock, Block, TestBlock};
use liveness::expression::{AExp, BExp, Variable};
use liveness::parser::{apply_token, is_a_op, is_b_op, is_r_op, surrounded_by_parens, Token};
use liveness::program::builder::{BuilderError, ScopeKind, ScopedBuilder};
use liveness::program::{Program, ProgramError};
use liveness::statement::Statement;

const X: Variable = 0;

fn atom(label: usize) -> Statement {
    Statement::Atom(Block::skip(label))
}

fn seq(a: Statement, b: Statement) -> Statement {
    Statement::Sequence(Box::new(a), Box::new(b))
}

fn guard(label: usize) -> TestBlock {
    TestBlock { label, expr: BExp::True }
}

#[test]
fn scoped_builder_without_scopes_builds_a_sequence() {
    let b = ScopedBuilder::new(1).skip().assignment(X, AExp::Number(3)).test(BExp::False);
    assert_eq!(b.next_label, 4);
    assert_eq!(b.innermost(), None);
    assert_eq!(
        b.end(),
        Ok(seq(
            atom(1),
            seq(
                Statement::Atom(Block::assignment(2, X, AExp::Number(3))),
                Statement::Atom(Block::test(3, BExp::False))
            )
        ))
    );
}

#[test]
fn scoped_builder_that_built_nothing_ends_in_empty() {
    assert_eq!(ScopedBuilder::new(7).end(), Ok(Statement::Empty));
}

#[test]
fn scoped_builder_nests_scopes() {
    let b = ScopedBuilder::new(1)
        .begin_while(BExp::True)
        .begin_if(BExp::True)
        .skip()
        .else_()
        .unwrap()
        .begin_while(BExp::True)
        .skip()
        .end_while()
        .unwrap()
        .end_if()
        .unwrap()
        .skip()
        .end_while()
        .unwrap()
        .skip();
    assert_eq!(b.next_label, 8);
    let expected = seq(
        Statement::While(
            guard(1),
            Box::new(seq(
                Statement::IfThenElse(
                    guard(2),
                    Box::new(atom(3)),
                    Box::new(Statement::While(guard(4), Box::new(atom(5)))),
                ),
                atom(6),
            )),
        ),
        atom(7),
    );
    let stmt = b.end().unwrap();
    assert_eq!(stmt, expected);
    assert_eq!(stmt.labelled(1), Some(7));
    assert_eq!(Program::new(stmt).contents, expected);
}

#[test]
fn scoped_builder_tells_the_innermost_scope() {
    let b = ScopedBuilder::new(1).begin_if(BExp::True);
    assert_eq!(b.innermost(), Some(ScopeKind::Then));
    let b = b.else_().unwrap();
    assert_eq!(b.innermost(), Some(ScopeKind::Else));
    let b = b.begin_while(BExp::True);
    assert_eq!(b.innermost(), Some(ScopeKind::While));
    let b = b.end_while().unwrap();
    assert_eq!(b.innermost(), Some(ScopeKind::Else));
    let b = b.end_if().unwrap();
    assert_eq!(b.innermost(), None);
}

#[test]
fn if_without_else_has_an_empty_second_branch() {
    let stmt = ScopedBuilder::new(1).begin_if(BExp::True).skip().end_if().unwrap().end().unwrap();
    assert_eq!(
        stmt,
        Statement::IfThenElse(guard(1), Box::new(atom(2)), Box::new(Statement::Empty))
    );
    assert_eq!(Program::try_new(stmt), Err(ProgramError::Incomplete));
}

#[test]
fn else_without_an_open_if_is_refused() {
    assert_eq!(ScopedBuilder::new(1).else_().err(), Some(BuilderError::ElseWithoutIf));
    assert_eq!(
        ScopedBuilder::new(1).begin_while(BExp::True).else_().err(),
        Some(BuilderError::ElseWithoutIf)
    );
    assert_eq!(
        ScopedBuilder::new(1).begin_if(BExp::True).else_().unwrap().else_().err(),
        Some(BuilderError::ElseWithoutIf)
    );
}

#[test]
fn end_if_without_an_open_if_is_refused() {
    assert_eq!(ScopedBuilder::new(1).skip().end_if().err(), Some(BuilderError::NoOpenIf));
    assert_eq!(
        ScopedBuilder::new(1).begin_if(BExp::True).begin_while(BExp::True).end_if().err(),
        Some(BuilderError::NoOpenIf)
    );
}

#[test]
fn end_while_without_an_open_while_is_refused() {
    assert_eq!(ScopedBuilder::new(1).end_while().err(), Some(BuilderError::NoOpenWhile));
    assert_eq!(
        ScopedBuilder::new(1).begin_while(BExp::True).begin_if(BExp::True).end_while().err(),
        Some(BuilderError::NoOpenWhile)
    );
}

#[test]
fn end_with_an_open_scope_is_refused() {
    assert_eq!(
        ScopedBuilder::new(1).begin_while(BExp::True).skip().end().err(),
        Some(BuilderError::UnclosedScope)
    );
    assert_eq!(
        ScopedBuilder::new(1).begin_if(BExp::True).else_().unwrap().end().err(),
        Some(BuilderError::UnclosedScope)
    );
}

#[test]
fn tokens_drive_the_builder() {
    let tokens = vec![
        Token::Assignment(AssignmentBlock { label: 0, var: X, expr: AExp::Number(1) }),
        Token::While(BExp::True),
        Token::Do,
        Token::If(BExp::False),
        Token::Then,
        Token::Skip,
        Token::Else,
        Token::Skip,
        Token::EndIf,
        Token::EndDo,
    ];
    let mut builder = ScopedBuilder::new(1);
    for token in tokens {
        builder = apply_token(builder, token).unwrap();
    }
    assert_eq!(builder.next_label, 6);
    assert_eq!(
        builder.end(),
        Ok(seq(
            Statement::Atom(Block::assignment(1, X, AExp::Number(1))),
            Statement::While(
                guard(2),
                Box::new(Statement::IfThenElse(
                    TestBlock { label: 3, expr: BExp::False },
                    Box::new(atom(4)),
                    Box::new(atom(5)),
                )),
            ),
        ))
    );
}

#[test]
fn tokens_that_close_nothing_are_refused() {
    assert_eq!(
        apply_token(ScopedBuilder::new(1), Token::Else).err(),
        Some(BuilderError::ElseWithoutIf)
    );
    assert_eq!(
        apply_token(ScopedBuilder::new(1), Token::EndIf).err(),
        Some(BuilderError::NoOpenIf)
    );
    assert_eq!(
        apply_token(ScopedBuilder::new(1), Token::EndDo).err(),
        Some(BuilderError::NoOpenWhile)
    );
}

#[test]
fn then_and_do_change_nothing() {
    let b = apply_token(ScopedBuilder::new(4).skip(), Token::Then).unwrap();
    assert_eq!(b.next_label, 5);
    let b = apply_token(b, Token::Do).unwrap();
    assert_eq!(b.next_label, 5);
    assert_eq!(b.end(), Ok(atom(4)));
}

#[test]
fn tokens_clone_to_equal_values() {
    let t = Token::If(BExp::Not(Box::new(BExp::True)));
    assert_eq!(t.clone(), t);
    let a = Token::Assignment(AssignmentBlock { label: 0, var: X, expr: AExp::Number(1) });
    assert_eq!(a.clone(), a);
}

#[test]
fn operator_characters() {
    for c in ['+', '-', '*', '/'] {
        assert!(is_a_op(c));
        assert!(!is_b_op(c));
        assert!(!is_r_op(c));
    }
    for c in ['|', '&'] {
        assert!(is_b_op(c));
        assert!(!is_a_op(c));
        assert!(!is_r_op(c));
    }
    for c in ['=', '<', '>'] {
        assert!(is_r_op(c));
        assert!(!is_a_op(c));
        assert!(!is_b_op(c));
    }
    for c in ['x', ' ', '(', '!', '%'] {
        assert!(!is_a_op(c) && !is_b_op(c) && !is_r_op(c));
    }
}

#[test]
fn surrounded_by_one_pair_of_parentheses() {
    assert!(surrounded_by_parens("(x)"));
    assert!(surrounded_by_parens("(x + (y * z))"));
    assert!(surrounded_by_parens("((x))"));
    assert!(surrounded_by_parens("()"));
}

#[test]
fn not_surrounded_where_the_first_parenthesis_closes_early() {
    assert!(!surrounded_by_parens("(x) + (y)"));
    assert!(!surrounded_by_parens("(x)y"));
    assert!(!surrounded_by_parens("()()"));
    assert!(!surrounded_by_parens("x"));
    assert!(!surrounded_by_parens("x + (y)"));
    assert!(!surrounded_by_parens(")x("));
    assert!(!surrounded_by_parens(")"));
}

#[test]
fn surrounded_does_not_look_at_the_last_character() {
    assert!(surrounded_by_parens(""));
    assert!(surrounded_by_parens("("));
    assert!(surrounded_by_parens("(x"));
    assert!(surrounded_by_parens("((x)"));
}
