//! What reading a program text needs beside the text itself: the tokens,
//! the characters that stand for operators, and the step that a token makes
//! a builder take.

use crate::block::{AssignmentBlock, Block};
use crate::expression::{AExp, BExp};
use crate::program::builder::{BuilderError, BuilderState, ScopeKind, ScopedBuilder};
use vstd::prelude::*;

verus! {

/// One token of a program text.
#[derive(Debug, PartialEq, Eq)]
pub enum Token {
    Skip,
    If(BExp),
    Then,
    Else,
    While(BExp),
    Do,
    EndIf,
    EndDo,
    Assignment(AssignmentBlock),
    AExp(AExp),
    BExp(BExp),
}

impl Clone for Token {
    fn clone(&self) -> (r: Self)
        ensures
            r == *self,
    {
        match self {
            Token::Skip => Token::Skip,
            Token::If(test) => Token::If(test.clone()),
            Token::Then => Token::Then,
            Token::Else => Token::Else,
            Token::While(test) => Token::While(test.clone()),
            Token::Do => Token::Do,
            Token::EndIf => Token::EndIf,
            Token::EndDo => Token::EndDo,
            Token::Assignment(block) => Token::Assignment(block.clone()),
            Token::AExp(expr) => Token::AExp(expr.clone()),
            Token::BExp(expr) => Token::BExp(expr.clone()),
        }
    }
}

impl Token {
    /// An expression that stands alone, where a statement is expected.
    pub open spec fn is_stray(self) -> bool {
        self is AExp || self is BExp
    }

    /// The token adds a block or a guard, and so uses up a label.
    pub open spec fn takes_label(self) -> bool {
        self is Skip || self is If || self is While || self is Assignment
    }
}

/// The state into which `token` brings a builder in the state `s`; `None`
/// where the open scopes do not allow the token.
pub open spec fn step(s: BuilderState, token: Token) -> Option<BuilderState> {
    match token {
        Token::Skip => Some(s.with_atom(Block::skip_of(s.next_label))),
        Token::If(test) => Some(s.opened(ScopeKind::Then, test)),
        Token::Then => Some(s),
        Token::Else => if s.innermost_is(ScopeKind::Then) {
            Some(s.switched())
        } else {
            None
        },
        Token::EndIf => if s.innermost_is(ScopeKind::Then) || s.innermost_is(ScopeKind::Else) {
            Some(s.closed())
        } else {
            None
        },
        Token::While(test) => Some(s.opened(ScopeKind::While, test)),
        Token::Do => Some(s),
        Token::EndDo => if s.innermost_is(ScopeKind::While) {
            Some(s.closed())
        } else {
            None
        },
        Token::Assignment(block) => Some(
            s.with_atom(Block::assignment_of(s.next_label, block.var, block.expr)),
        ),
        Token::AExp(_) => None,
        Token::BExp(_) => None,
    }
}

/// Lets `builder` take the step that `token` asks for: a block is
/// appended, a scope opened or closed; `then` and `do` change nothing.
pub fn apply_token(builder: ScopedBuilder, token: Token) -> (r: Result<ScopedBuilder, BuilderError>)
    requires
        !token.is_stray(),
        token.takes_label() ==> builder.next_label < usize::MAX,
    ensures
        match r {
            Ok(b) => step(builder@, token) == Some(b@) && (builder@.wf() ==> b@.wf()
                && b@.first_label() == builder@.first_label()),
            Err(e) => step(builder@, token) is None && e == match token {
                Token::Else => BuilderError::ElseWithoutIf,
                Token::EndIf => BuilderError::NoOpenIf,
                _ => BuilderError::NoOpenWhile,
            },
        },
{
    match token {
        Token::Skip => Ok(builder.skip()),
        Token::If(test) => Ok(builder.begin_if(test)),
        Token::Then => Ok(builder),
        Token::Else => builder.else_(),
        Token::EndIf => builder.end_if(),
        Token::While(test) => Ok(builder.begin_while(test)),
        Token::Do => Ok(builder),
        Token::EndDo => builder.end_while(),
        Token::Assignment(block) => Ok(builder.assignment(block.var, block.expr)),
        Token::AExp(_) => unreached(),
        Token::BExp(_) => unreached(),
    }
}

/// Whether `c` stands for an arithmetic operator.
pub fn is_a_op(c: char) -> (r: bool)
    ensures
        r == (c == '+' || c == '-' || c == '*' || c == '/'),
{
    c == '+' || c == '-' || c == '*' || c == '/'
}

/// Whether `c` is part of a boolean operator.
pub fn is_b_op(c: char) -> (r: bool)
    ensures
        r == (c == '|' || c == '&'),
{
    c == '|' || c == '&'
}

/// Whether `c` is part of a relational operator.
pub fn is_r_op(c: char) -> (r: bool)
    ensures
        r == (c == '=' || c == '<' || c == '>'),
{
    c == '=' || c == '<' || c == '>'
}

/// How many more `(` than `)` stand among the first `n` characters.
pub open spec fn depth(s: Seq<char>, n: int) -> int
    decreases n,
{
    if n <= 0 {
        0
    } else {
        depth(s, n - 1) + if s[n - 1] == '(' {
            1int
        } else if s[n - 1] == ')' {
            -1int
        } else {
            0int
        }
    }
}

/// The text begins with a `(` that nothing closes before the last
/// character: behind the first character, and behind every one but the
/// last, more `(` than `)` have been read.
pub open spec fn is_surrounded(s: Seq<char>) -> bool {
    forall|i: int| 0 <= i < s.len() && (i == 0 || i != s.len() - 1) ==> #[trigger] depth(s, i + 1) > 0
}

/// Whether one pair of parentheses holds the whole of `s`: whether the
/// `(` at its beginning stays open up to its last character. The last
/// character itself is not looked at, and the empty text counts.
pub fn surrounded_by_parens(s: &str) -> (r: bool)
    ensures
        r == is_surrounded(s@),
{
    let n = s.unicode_len();
    if n == 0 {
        return true;
    }
    let end = if n == 1 {
        1
    } else {
        n - 1
    };
    let mut nesting_level: usize = 0;
    let mut i: usize = 0;
    while i < end
        invariant
            i <= end,
            end <= n,
            n == s@.len(),
            end == if n == 1 { 1int } else { n - 1 },
            nesting_level == depth(s@, i as int),
            nesting_level <= i,
            forall|j: int| 0 <= j < i ==> #[trigger] depth(s@, j + 1) > 0,
        decreases end - i,
    {
        let c = s.get_char(i);
        if c == '(' {
            nesting_level += 1;
        } else if c == ')' {
            if nesting_level == 0 {
                assert(depth(s@, i + 1) <= 0);
                return false;
            }
            nesting_level -= 1;
        }
        if nesting_level == 0 {
            assert(depth(s@, i + 1) <= 0);
            return false;
        }
        i += 1;
    }
    true
}

} // verus!
