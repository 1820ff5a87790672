//! Arithmetic and boolean expressions, and the variables that occur in them.

use std::collections::HashSet;
use vstd::prelude::*;

verus! {

broadcast use vstd::std_specs::hash::group_hash_axioms;

/// Names one elementary block of a program.
pub type Label = usize;

/// Index of a variable in the alphabet `x`, `y`, `z`, ...
pub type Variable = u8;

/// A numeric literal; its value plays no role in the analysis.
pub type Value = i32;

/// An arithmetic expression, as it may stand on the right of an assignment.
#[derive(Debug, PartialEq, Eq, Hash)]
pub enum AExp {
    Variable(Variable),
    Number(Value),
    ArithmeticOp(Box<AExp>, String, Box<AExp>),
}

/// A boolean expression, as it may stand in a test.
#[derive(Debug, PartialEq, Eq, Hash)]
pub enum BExp {
    True,
    False,
    Not(Box<BExp>),
    BooleanOp(Box<BExp>, String, Box<BExp>),
    RelationalOp(AExp, String, AExp),
}

impl Clone for AExp {
    fn clone(&self) -> (r: Self)
        ensures
            r == *self,
        decreases self,
    {
        match self {
            AExp::Variable(v) => AExp::Variable(*v),
            AExp::Number(n) => AExp::Number(*n),
            AExp::ArithmeticOp(lhs, op, rhs) => {
                let l = (&**lhs).clone();
                let r = (&**rhs).clone();
                AExp::ArithmeticOp(Box::new(l), op.clone(), Box::new(r))
            },
        }
    }
}

impl Clone for BExp {
    fn clone(&self) -> (r: Self)
        ensures
            r == *self,
        decreases self,
    {
        match self {
            BExp::True => BExp::True,
            BExp::False => BExp::False,
            BExp::Not(inner) => {
                let i = (&**inner).clone();
                BExp::Not(Box::new(i))
            },
            BExp::BooleanOp(lhs, op, rhs) => {
                let l = (&**lhs).clone();
                let r = (&**rhs).clone();
                BExp::BooleanOp(Box::new(l), op.clone(), Box::new(r))
            },
            BExp::RelationalOp(lhs, op, rhs) => BExp::RelationalOp(
                lhs.clone(),
                op.clone(),
                rhs.clone(),
            ),
        }
    }
}

impl AExp {
    /// The variables that occur in the expression.
    pub open spec fn vars(self) -> Set<Variable>
        decreases self,
    {
        match self {
            AExp::Variable(v) => set![v],
            AExp::Number(_) => Set::empty(),
            AExp::ArithmeticOp(lhs, _, rhs) => lhs.vars().union(rhs.vars()),
        }
    }

    /// Adds the variables of the expression to `acc`.
    pub fn collect_vars(&self, acc: &mut HashSet<Variable>)
        ensures
            final(acc)@ == old(acc)@.union(self.vars()),
        decreases self,
    {
        match self {
            AExp::Variable(v) => {
                acc.insert(*v);
            },
            AExp::Number(_) => {},
            AExp::ArithmeticOp(lhs, _, rhs) => {
                lhs.collect_vars(acc);
                rhs.collect_vars(acc);
            },
        }
    }

    /// The set of variables that occur in the expression.
    pub fn free_vars(&self) -> (r: HashSet<Variable>)
        ensures
            r@ == self.vars(),
    {
        let mut acc: HashSet<Variable> = HashSet::new();
        self.collect_vars(&mut acc);
        acc
    }
}

impl BExp {
    /// The variables that occur in the expression, those of nested
    /// arithmetic operands included.
    pub open spec fn vars(self) -> Set<Variable>
        decreases self,
    {
        match self {
            BExp::True => Set::empty(),
            BExp::False => Set::empty(),
            BExp::Not(inner) => inner.vars(),
            BExp::BooleanOp(lhs, _, rhs) => lhs.vars().union(rhs.vars()),
            BExp::RelationalOp(lhs, _, rhs) => lhs.vars().union(rhs.vars()),
        }
    }

    /// Adds the variables of the expression to `acc`.
    pub fn collect_vars(&self, acc: &mut HashSet<Variable>)
        ensures
            final(acc)@ == old(acc)@.union(self.vars()),
        decreases self,
    {
        match self {
            BExp::True => {},
            BExp::False => {},
            BExp::Not(inner) => {
                inner.collect_vars(acc);
            },
            BExp::BooleanOp(lhs, _, rhs) => {
                lhs.collect_vars(acc);
                rhs.collect_vars(acc);
            },
            BExp::RelationalOp(lhs, _, rhs) => {
                lhs.collect_vars(acc);
                rhs.collect_vars(acc);
            },
        }
    }

    /// The set of variables that occur in the expression.
    pub fn free_vars(&self) -> (r: HashSet<Variable>)
        ensures
            r@ == self.vars(),
    {
        let mut acc: HashSet<Variable> = HashSet::new();
        self.collect_vars(&mut acc);
        acc
    }
}

} // verus!
