//! The rewrite-rule catalogue: pattern/replacement pairs over expressions.

use vstd::prelude::*;

use crate::exprs::Expression;
use crate::exprs::ExprView;
use crate::exprs::TagView;
use crate::exprs::binary;
use crate::exprs::cnst;
use crate::exprs::mvar;
use crate::exprs::unary;

verus! {

/// A rewrite rule: expressions matching the left-hand side are asserted
/// equal to the right-hand side under the captured substitution.
#[derive(Debug)]
pub struct Rule {
    pub lhs: Expression,
    pub rhs: Expression,
}

impl Rule {
    /// The catalogue of arithmetic rewrite rules: commutativity,
    /// associativity and distributivity of addition and multiplication,
    /// identity and absorbing elements, negation laws, subtraction as
    /// addition of a negation, and division laws.
    #[verifier::rlimit(100)]
    pub fn rules() -> (r: Vec<Rule>)
        ensures
            r@.len() == 15,
            r@[0].lhs@ == binary(TagView::Add, mvar('a'), mvar('b')),
            r@[0].rhs@ == binary(TagView::Add, mvar('b'), mvar('a')),
            r@[1].lhs@ == binary(TagView::Add, mvar('a'), cnst(0)),
            r@[1].rhs@ == mvar('a'),
            r@[2].lhs@ == binary(TagView::Mul, mvar('a'), mvar('b')),
            r@[2].rhs@ == binary(TagView::Mul, mvar('b'), mvar('a')),
            r@[3].lhs@ == binary(TagView::Mul, mvar('a'), cnst(1)),
            r@[3].rhs@ == mvar('a'),
            r@[4].lhs@ == binary(TagView::Mul, mvar('a'), cnst(0)),
            r@[4].rhs@ == cnst(0),
            r@[5].lhs@ == binary(TagView::Add, binary(TagView::Add, mvar('a'), mvar('b')), mvar('c')),
            r@[5].rhs@ == binary(TagView::Add, mvar('a'), binary(TagView::Add, mvar('b'), mvar('c'))),
            r@[6].lhs@ == binary(TagView::Mul, binary(TagView::Mul, mvar('a'), mvar('b')), mvar('c')),
            r@[6].rhs@ == binary(TagView::Mul, mvar('a'), binary(TagView::Mul, mvar('b'), mvar('c'))),
            r@[7].lhs@ == binary(TagView::Div, binary(TagView::Mul, mvar('a'), mvar('b')), mvar('c')),
            r@[7].rhs@ == binary(TagView::Mul, mvar('a'), binary(TagView::Div, mvar('b'), mvar('c'))),
            r@[8].lhs@ == binary(TagView::Mul, mvar('a'), binary(TagView::Add, mvar('b'), mvar('c'))),
            r@[8].rhs@ == binary(TagView::Add, binary(TagView::Mul, mvar('a'), mvar('b')), binary(TagView::Mul, mvar('a'), mvar('c'))),
            r@[9].lhs@ == binary(TagView::Mul, binary(TagView::Add, mvar('b'), mvar('c')), mvar('a')),
            r@[9].rhs@ == binary(TagView::Add, binary(TagView::Mul, mvar('b'), mvar('a')), binary(TagView::Mul, mvar('c'), mvar('a'))),
            r@[10].lhs@ == unary(TagView::Neg, cnst(0)),
            r@[10].rhs@ == cnst(0),
            r@[11].lhs@ == unary(TagView::Neg, unary(TagView::Neg, mvar('a'))),
            r@[11].rhs@ == mvar('a'),
            r@[12].lhs@ == binary(TagView::Sub, mvar('a'), mvar('b')),
            r@[12].rhs@ == binary(TagView::Add, mvar('a'), unary(TagView::Neg, mvar('b'))),
            r@[13].lhs@ == binary(TagView::Div, mvar('a'), cnst(1)),
            r@[13].rhs@ == mvar('a'),
            r@[14].lhs@ == binary(TagView::Div, mvar('a'), mvar('a')),
            r@[14].rhs@ == cnst(1),
    {
        proof {
            reveal_strlit("a");
            reveal_strlit("b");
            reveal_strlit("c");
            assert("a"@ =~= seq!['a']);
            assert("b"@ =~= seq!['b']);
            assert("c"@ =~= seq!['c']);
        }
        let mut r: Vec<Rule> = Vec::new();
        // Commutativity of addition
        r.push(Rule { lhs: Expression::add(Expression::meta_variable("a"), Expression::meta_variable("b")), rhs: Expression::add(Expression::meta_variable("b"), Expression::meta_variable("a")) });
        // Identity element of addition
        r.push(Rule { lhs: Expression::add(Expression::meta_variable("a"), Expression::constant(0)), rhs: Expression::meta_variable("a") });
        // Commutativity of multiplication
        r.push(Rule { lhs: Expression::multiply(Expression::meta_variable("a"), Expression::meta_variable("b")), rhs: Expression::multiply(Expression::meta_variable("b"), Expression::meta_variable("a")) });
        // Identity element of multiplication
        r.push(Rule { lhs: Expression::multiply(Expression::meta_variable("a"), Expression::constant(1)), rhs: Expression::meta_variable("a") });
        // Multiplication by zero
        r.push(Rule { lhs: Expression::multiply(Expression::meta_variable("a"), Expression::constant(0)), rhs: Expression::constant(0) });
        // Associativity of addition
        r.push(Rule { lhs: Expression::add(Expression::add(Expression::meta_variable("a"), Expression::meta_variable("b")), Expression::meta_variable("c")), rhs: Expression::add(Expression::meta_variable("a"), Expression::add(Expression::meta_variable("b"), Expression::meta_variable("c"))) });
        // Associativity of multiplication
        r.push(Rule { lhs: Expression::multiply(Expression::multiply(Expression::meta_variable("a"), Expression::meta_variable("b")), Expression::meta_variable("c")), rhs: Expression::multiply(Expression::meta_variable("a"), Expression::multiply(Expression::meta_variable("b"), Expression::meta_variable("c"))) });
        // Associativity of multiplication and division
        r.push(Rule { lhs: Expression::divide(Expression::multiply(Expression::meta_variable("a"), Expression::meta_variable("b")), Expression::meta_variable("c")), rhs: Expression::multiply(Expression::meta_variable("a"), Expression::divide(Expression::meta_variable("b"), Expression::meta_variable("c"))) });
        // Distributivity of multiplication over addition, from the left
        r.push(Rule { lhs: Expression::multiply(Expression::meta_variable("a"), Expression::add(Expression::meta_variable("b"), Expression::meta_variable("c"))), rhs: Expression::add(Expression::multiply(Expression::meta_variable("a"), Expression::meta_variable("b")), Expression::multiply(Expression::meta_variable("a"), Expression::meta_variable("c"))) });
        // Distributivity of multiplication over addition, from the right
        r.push(Rule { lhs: Expression::multiply(Expression::add(Expression::meta_variable("b"), Expression::meta_variable("c")), Expression::meta_variable("a")), rhs: Expression::add(Expression::multiply(Expression::meta_variable("b"), Expression::meta_variable("a")), Expression::multiply(Expression::meta_variable("c"), Expression::meta_variable("a"))) });
        // Negation of zero
        r.push(Rule { lhs: Expression::negate(Expression::constant(0)), rhs: Expression::constant(0) });
        // Negation of a negation
        r.push(Rule { lhs: Expression::negate(Expression::negate(Expression::meta_variable("a"))), rhs: Expression::meta_variable("a") });
        // Subtraction as addition with negation
        r.push(Rule { lhs: Expression::subtract(Expression::meta_variable("a"), Expression::meta_variable("b")), rhs: Expression::add(Expression::meta_variable("a"), Expression::negate(Expression::meta_variable("b"))) });
        // Division by one
        r.push(Rule { lhs: Expression::divide(Expression::meta_variable("a"), Expression::constant(1)), rhs: Expression::meta_variable("a") });
        // Division by the same expression
        r.push(Rule { lhs: Expression::divide(Expression::meta_variable("a"), Expression::meta_variable("a")), rhs: Expression::constant(1) });
        r
    }
}

} // verus!
