//! Syntactic expressions: operator-tagged trees with ordered children.

use vstd::prelude::*;

verus! {

/// The operator tag of an expression node or e-node.
///
/// `Const` carries a signed integer, `Var` an identifier, and `MetaVar` a
/// pattern-only placeholder that never enters an e-graph.
#[derive(Debug)]
pub enum NodeType {
    MetaVar(String),
    Const(i64),
    Var(String),
    Neg,
    Add,
    Sub,
    Mul,
    Div,
}

/// The mathematical value of a `NodeType`: names as character sequences,
/// constants as unbounded integers.
pub enum TagView {
    MetaVar(Seq<char>),
    Const(int),
    Var(Seq<char>),
    Neg,
    Add,
    Sub,
    Mul,
    Div,
}

impl View for NodeType {
    type V = TagView;

    open spec fn view(&self) -> TagView {
        match self {
            NodeType::MetaVar(s) => TagView::MetaVar(s@),
            NodeType::Const(n) => TagView::Const(*n as int),
            NodeType::Var(s) => TagView::Var(s@),
            NodeType::Neg => TagView::Neg,
            NodeType::Add => TagView::Add,
            NodeType::Sub => TagView::Sub,
            NodeType::Mul => TagView::Mul,
            NodeType::Div => TagView::Div,
        }
    }
}

impl Clone for NodeType {
    fn clone(&self) -> (r: Self)
        ensures
            r@ == self@,
    {
        match self {
            NodeType::MetaVar(s) => NodeType::MetaVar(s.clone()),
            NodeType::Const(n) => NodeType::Const(*n),
            NodeType::Var(s) => NodeType::Var(s.clone()),
            NodeType::Neg => NodeType::Neg,
            NodeType::Add => NodeType::Add,
            NodeType::Sub => NodeType::Sub,
            NodeType::Mul => NodeType::Mul,
            NodeType::Div => NodeType::Div,
        }
    }
}

impl PartialEq for NodeType {
    fn eq(&self, other: &Self) -> bool {
        match (self, other) {
            (NodeType::MetaVar(a), NodeType::MetaVar(b)) => *a == *b,
            (NodeType::Const(a), NodeType::Const(b)) => *a == *b,
            (NodeType::Var(a), NodeType::Var(b)) => *a == *b,
            (NodeType::Neg, NodeType::Neg) => true,
            (NodeType::Add, NodeType::Add) => true,
            (NodeType::Sub, NodeType::Sub) => true,
            (NodeType::Mul, NodeType::Mul) => true,
            (NodeType::Div, NodeType::Div) => true,
            _ => false,
        }
    }
}

impl vstd::std_specs::cmp::PartialEqSpecImpl for NodeType {
    open spec fn obeys_eq_spec() -> bool {
        true
    }

    open spec fn eq_spec(&self, other: &NodeType) -> bool {
        self@ == other@
    }
}

impl Eq for NodeType {}

/// A syntactic expression: an operator tag and an ordered list of child
/// expressions.  Well-formed expressions give each tag its arity (0 for
/// leaves, 1 for `Neg`, 2 for the binary operators), though the matcher and
/// printer tolerate malformed arities.
#[derive(Debug)]
pub struct Expression {
    pub t: NodeType,
    pub children: Vec<Expression>,
}

/// The mathematical value of an `Expression`: the same tree over `TagView`.
#[verifier::ext_equal]
pub struct ExprView {
    pub t: TagView,
    pub children: Seq<ExprView>,
}

/// The views of a sequence of expressions, in order.
pub open spec fn views_of_exprs(s: Seq<Expression>) -> Seq<ExprView>
    decreases s,
{
    if s.len() == 0 {
        Seq::empty()
    } else {
        seq![expr_view(s[0])] + views_of_exprs(s.drop_first())
    }
}

/// `views_of_exprs` maps each expression of a sequence to its view, in place.
pub proof fn lemma_views_of_exprs(s: Seq<Expression>)
    ensures
        views_of_exprs(s).len() == s.len(),
        forall|i: int| 0 <= i < s.len() ==> views_of_exprs(s)[i] == expr_view(s[i]),
    decreases s.len(),
{
    if s.len() > 0 {
        lemma_views_of_exprs(s.drop_first());
    }
}

/// The views of a concatenation are the concatenated views.
pub proof fn lemma_views_of_exprs_append(a: Seq<Expression>, b: Seq<Expression>)
    ensures
        views_of_exprs(a + b) == views_of_exprs(a) + views_of_exprs(b),
{
    lemma_views_of_exprs(a);
    lemma_views_of_exprs(b);
    lemma_views_of_exprs(a + b);
    assert(views_of_exprs(a + b) =~= views_of_exprs(a) + views_of_exprs(b));
}

/// The view of an expression, taken recursively on every child.
pub open spec fn expr_view(e: Expression) -> ExprView
    decreases e,
{
    ExprView { t: e.t@, children: views_of_exprs(e.children@) }
}

impl View for Expression {
    type V = ExprView;

    open spec fn view(&self) -> ExprView {
        expr_view(*self)
    }
}

impl Clone for Expression {
    fn clone(&self) -> (r: Self)
        ensures
            r@ == self@,
        decreases *self,
    {
        let mut children: Vec<Expression> = Vec::new();
        let mut i: usize = 0;
        while i < self.children.len()
            invariant
                i <= self.children.len(),
                children@.len() == i as int,
                forall|j: int| 0 <= j < i ==> children@[j]@ == self.children@[j]@,
            decreases self.children.len() - i,
        {
            children.push(self.children[i].clone());
            i = i + 1;
        }
        let r = Expression { t: self.t.clone(), children };
        proof {
            lemma_views_of_exprs(r.children@);
            lemma_views_of_exprs(self.children@);
            assert(r@.children =~= self@.children);
            assert(r@ =~= self@);
        }
        r
    }
}

impl PartialEq for Expression {
    fn eq(&self, other: &Self) -> (r: bool)
        decreases *self,
    {
        if !(self.t == other.t) {
            proof {
                assert(self@.t != other@.t);
            }
            return false;
        }
        if self.children.len() != other.children.len() {
            proof {
                lemma_views_of_exprs(self.children@);
                lemma_views_of_exprs(other.children@);
                assert(self@.children.len() != other@.children.len());
            }
            return false;
        }
        let n = self.children.len();
        let mut i: usize = 0;
        while i < n
            invariant
                n == self.children@.len(),
                n == other.children@.len(),
                i <= n,
                forall|j: int| 0 <= j < i ==> self@.children[j] == other@.children[j],
            decreases n - i,
        {
            proof {
                lemma_views_of_exprs(self.children@);
                lemma_views_of_exprs(other.children@);
            }
            if !(self.children[i] == other.children[i]) {
                proof {
                    assert(self@.children[i as int] != other@.children[i as int]);
                }
                return false;
            }
            i = i + 1;
        }
        proof {
            lemma_views_of_exprs(self.children@);
            lemma_views_of_exprs(other.children@);
            assert(self@.children =~= other@.children);
            assert(self@ =~= other@);
        }
        true
    }
}

impl vstd::std_specs::cmp::PartialEqSpecImpl for Expression {
    open spec fn obeys_eq_spec() -> bool {
        true
    }

    open spec fn eq_spec(&self, other: &Expression) -> bool {
        self@ == other@
    }
}

impl Eq for Expression {}

/// An expression view that is a leaf: a tag with no children.
pub open spec fn leaf(t: TagView) -> ExprView {
    ExprView { t, children: Seq::empty() }
}

/// An expression view with one child.
pub open spec fn unary(t: TagView, x: ExprView) -> ExprView {
    ExprView { t, children: seq![x] }
}

/// An expression view with two children.
pub open spec fn binary(t: TagView, l: ExprView, r: ExprView) -> ExprView {
    ExprView { t, children: seq![l, r] }
}

/// A pattern leaf binding a one-character meta-variable name.
pub open spec fn mvar(c: char) -> ExprView {
    leaf(TagView::MetaVar(seq![c]))
}

/// A constant leaf.
pub open spec fn cnst(n: int) -> ExprView {
    leaf(TagView::Const(n))
}

/// Whether an expression is ground: free of meta-variables throughout.
pub open spec fn ground(e: ExprView) -> bool
    decreases e,
{
    &&& !(e.t is MetaVar)
    &&& forall|i: int| 0 <= i < e.children.len() ==> ground(#[trigger] e.children[i])
}

/// The height of an expression: 0 for a leaf, one more than the tallest
/// child otherwise.
pub open spec fn height(e: ExprView) -> nat
    decreases e,
{
    if e.children.len() == 0 {
        0
    } else {
        1 + max_child_height(e.children)
    }
}

/// The greatest height among a nonempty sequence's expressions; 0 when empty.
pub open spec fn max_child_height(s: Seq<ExprView>) -> nat
    decreases s,
{
    if s.len() == 0 {
        0
    } else if height(s[0]) >= max_child_height(s.drop_first()) {
        height(s[0])
    } else {
        max_child_height(s.drop_first())
    }
}

/// Every child is at most as tall as the tallest.
pub proof fn lemma_max_child_height(s: Seq<ExprView>)
    ensures
        forall|i: int| 0 <= i < s.len() ==> height(s[i]) <= max_child_height(s),
    decreases s.len(),
{
    if s.len() > 0 {
        lemma_max_child_height(s.drop_first());
        assert(forall|i: int| 1 <= i < s.len() ==> s.drop_first()[i - 1] == s[i]);
    }
}

/// Every node carries its tag's arity: leaves none, negation one child,
/// the binary operators two.
pub open spec fn wf_arity(e: ExprView) -> bool
    decreases e,
{
    &&& match e.t {
        TagView::MetaVar(_) => e.children.len() == 0,
        TagView::Const(_) => e.children.len() == 0,
        TagView::Var(_) => e.children.len() == 0,
        TagView::Neg => e.children.len() == 1,
        TagView::Add => e.children.len() == 2,
        TagView::Sub => e.children.len() == 2,
        TagView::Mul => e.children.len() == 2,
        TagView::Div => e.children.len() == 2,
    }
    &&& forall|i: int| 0 <= i < e.children.len() ==> wf_arity(#[trigger] e.children[i])
}

/// Whether the first expression occurs within the second: the whole
/// expression, or within one of its children.
pub open spec fn is_subexpr(s: ExprView, y: ExprView) -> bool
    decreases y,
{
    ||| s == y
    ||| exists|k: int| 0 <= k < y.children.len() && is_subexpr(s, #[trigger] y.children[k])
}

/// An expression within another is at most as tall.
pub proof fn lemma_subexpr_height(s: ExprView, y: ExprView)
    requires
        is_subexpr(s, y),
    ensures
        height(s) <= height(y),
    decreases y,
{
    if s != y {
        let k = choose|k: int| 0 <= k < y.children.len() && is_subexpr(s, #[trigger] y.children[k]);
        lemma_subexpr_height(s, y.children[k]);
        lemma_max_child_height(y.children);
    }
}

/// Occurring-within is transitive.
pub proof fn lemma_subexpr_trans(a: ExprView, b: ExprView, c: ExprView)
    requires
        is_subexpr(a, b),
        is_subexpr(b, c),
    ensures
        is_subexpr(a, c),
    decreases c,
{
    if b != c {
        let k = choose|k: int| 0 <= k < c.children.len() && is_subexpr(b, #[trigger] c.children[k]);
        lemma_subexpr_trans(a, b, c.children[k]);
    }
}

/// The set of meta-variable names that occur in a pattern.
pub open spec fn metavars(p: ExprView) -> Set<Seq<char>>
    decreases p,
{
    match p.t {
        TagView::MetaVar(x) => set![x],
        _ => metavars_of_seq(p.children),
    }
}

/// The meta-variable names occurring in any expression of a sequence.
pub open spec fn metavars_of_seq(s: Seq<ExprView>) -> Set<Seq<char>>
    decreases s,
{
    if s.len() == 0 {
        Set::empty()
    } else {
        metavars_of_seq(s.drop_last()).union(metavars(s.last()))
    }
}

/// A substitution: a finite map from meta-variable names to expressions.
pub type Subst = Map<Seq<char>, ExprView>;

/// The result of substituting into a template: each meta-variable bound by
/// the substitution is replaced by its image, other nodes keep their tag and
/// substitute recursively; unbound meta-variables stay as they are.
pub open spec fn apply_subst(p: ExprView, m: Subst) -> ExprView
    decreases p,
{
    match p.t {
        TagView::MetaVar(x) => if m.dom().contains(x) {
            m[x]
        } else {
            p
        },
        _ => ExprView { t: p.t, children: apply_subst_seq(p.children, m) },
    }
}

/// `apply_subst` over every expression of a sequence, in order.
pub open spec fn apply_subst_seq(s: Seq<ExprView>, m: Subst) -> Seq<ExprView>
    decreases s,
{
    if s.len() == 0 {
        Seq::empty()
    } else {
        seq![apply_subst(s[0], m)] + apply_subst_seq(s.drop_first(), m)
    }
}

/// `apply_subst_seq` maps `apply_subst` over the sequence, in place.
pub proof fn lemma_apply_subst_seq(s: Seq<ExprView>, m: Subst)
    ensures
        apply_subst_seq(s, m).len() == s.len(),
        forall|i: int| 0 <= i < s.len() ==> apply_subst_seq(s, m)[i] == apply_subst(s[i], m),
    decreases s.len(),
{
    if s.len() > 0 {
        lemma_apply_subst_seq(s.drop_first(), m);
    }
}

impl Expression {
    /// Creates a new constant expression.
    pub fn constant(value: i64) -> (r: Self)
        ensures
            r@ == leaf(TagView::Const(value as int)),
    {
        let r = Expression { t: NodeType::Const(value), children: Vec::new() };
        proof {
            assert(r@ =~= leaf(TagView::Const(value as int)));
        }
        r
    }

    /// Creates a new variable expression.
    pub fn variable(name: &str) -> (r: Self)
        ensures
            r@ == leaf(TagView::Var(name@)),
    {
        let r = Expression { t: NodeType::Var(name.to_owned()), children: Vec::new() };
        proof {
            assert(r@ =~= leaf(TagView::Var(name@)));
        }
        r
    }

    /// Creates a new meta-variable expression.
    pub fn meta_variable(name: &str) -> (r: Self)
        ensures
            r@ == leaf(TagView::MetaVar(name@)),
    {
        let r = Expression { t: NodeType::MetaVar(name.to_owned()), children: Vec::new() };
        proof {
            assert(r@ =~= leaf(TagView::MetaVar(name@)));
        }
        r
    }

    /// Creates a new negation expression.
    pub fn negate(child: Self) -> (r: Self)
        ensures
            r@ == unary(TagView::Neg, child@),
    {
        let ghost c = child@;
        let r = Expression { t: NodeType::Neg, children: vec![child] };
        proof {
            lemma_views_of_exprs(r.children@);
            assert(r@.children =~= seq![c]);
            assert(r@ =~= unary(TagView::Neg, c));
        }
        r
    }

    /// Creates a new addition expression.
    pub fn add(left: Self, right: Self) -> (r: Self)
        ensures
            r@ == binary(TagView::Add, left@, right@),
    {
        let ghost (l, rr) = (left@, right@);
        let r = Expression { t: NodeType::Add, children: vec![left, right] };
        proof {
            lemma_views_of_exprs(r.children@);
            assert(r@.children =~= seq![l, rr]);
            assert(r@ =~= binary(TagView::Add, l, rr));
        }
        r
    }

    /// Creates a new subtraction expression.
    pub fn subtract(left: Self, right: Self) -> (r: Self)
        ensures
            r@ == binary(TagView::Sub, left@, right@),
    {
        let ghost (l, rr) = (left@, right@);
        let r = Expression { t: NodeType::Sub, children: vec![left, right] };
        proof {
            lemma_views_of_exprs(r.children@);
            assert(r@.children =~= seq![l, rr]);
            assert(r@ =~= binary(TagView::Sub, l, rr));
        }
        r
    }

    /// Creates a new multiplication expression.
    pub fn multiply(left: Self, right: Self) -> (r: Self)
        ensures
            r@ == binary(TagView::Mul, left@, right@),
    {
        let ghost (l, rr) = (left@, right@);
        let r = Expression { t: NodeType::Mul, children: vec![left, right] };
        proof {
            lemma_views_of_exprs(r.children@);
            assert(r@.children =~= seq![l, rr]);
            assert(r@ =~= binary(TagView::Mul, l, rr));
        }
        r
    }

    /// Creates a new division expression.
    pub fn divide(left: Self, right: Self) -> (r: Self)
        ensures
            r@ == binary(TagView::Div, left@, right@),
    {
        let ghost (l, rr) = (left@, right@);
        let r = Expression { t: NodeType::Div, children: vec![left, right] };
        proof {
            lemma_views_of_exprs(r.children@);
            assert(r@.children =~= seq![l, rr]);
            assert(r@ =~= binary(TagView::Div, l, rr));
        }
        r
    }

    /// Returns the expression as an owned value.
    pub fn into_owned(self) -> (r: Expression)
        ensures
            r@ == self@,
    {
        self
    }
}


/// Whether a mathematical integer fits the constant type.
pub open spec fn in_i64(v: int) -> bool {
    i64::MIN <= v <= i64::MAX
}

/// The integer a closed arithmetic expression evaluates to, if any.
/// Variables and meta-variables evaluate to nothing; negation, addition,
/// subtraction and multiplication fail outside the constant range; division
/// succeeds only for a nonzero divisor that divides the dividend exactly.
pub open spec fn eval(e: ExprView) -> Option<int>
    decreases e,
{
    match e.t {
        TagView::Const(n) => Some(n),
        TagView::Neg => {
            if e.children.len() == 1 {
                match eval(e.children[0]) {
                    Some(v) => if in_i64(-v) {
                        Some(-v)
                    } else {
                        None
                    },
                    None => None,
                }
            } else {
                None
            }
        },
        TagView::Add => {
            if e.children.len() == 2 {
                eval2(TagView::Add, eval(e.children[0]), eval(e.children[1]))
            } else {
                None
            }
        },
        TagView::Sub => {
            if e.children.len() == 2 {
                eval2(TagView::Sub, eval(e.children[0]), eval(e.children[1]))
            } else {
                None
            }
        },
        TagView::Mul => {
            if e.children.len() == 2 {
                eval2(TagView::Mul, eval(e.children[0]), eval(e.children[1]))
            } else {
                None
            }
        },
        TagView::Div => {
            if e.children.len() == 2 {
                eval2(TagView::Div, eval(e.children[0]), eval(e.children[1]))
            } else {
                None
            }
        },
        _ => None,
    }
}

/// One arithmetic operation over two optional operands: both must be there.
pub open spec fn eval2(t: TagView, oa: Option<int>, ob: Option<int>) -> Option<int> {
    match (oa, ob) {
        (Some(a), Some(b)) => eval_op(t, a, b),
        _ => None,
    }
}

/// The result of one arithmetic operation, within the constant range.
pub open spec fn eval_op(t: TagView, a: int, b: int) -> Option<int> {
    match t {
        TagView::Add => if in_i64(a + b) {
            Some(a + b)
        } else {
            None
        },
        TagView::Sub => if in_i64(a - b) {
            Some(a - b)
        } else {
            None
        },
        TagView::Mul => if in_i64(a * b) {
            Some(a * b)
        } else {
            None
        },
        TagView::Div => if b != 0 && a % b == 0 && in_i64(a / b) {
            Some(a / b)
        } else {
            None
        },
        _ => None,
    }
}

impl Expression {
    /// Evaluates a closed arithmetic expression to an integer: constants
    /// evaluate to themselves, negation and the binary operators to exact
    /// integer arithmetic within the constant range, and division only by a
    /// nonzero divisor that divides the dividend exactly.  Variables,
    /// meta-variables, out-of-range results and inexact or zero division
    /// evaluate to nothing, and every failure propagates.
    pub fn const_eval(&self) -> (r: Option<i64>)
        ensures
            match r {
                Some(v) => eval(self@) == Some(v as int),
                None => eval(self@) is None,
            },
        decreases *self,
    {
        proof {
            lemma_views_of_exprs(self.children@);
        }
        match &self.t {
            NodeType::Const(n) => Some(*n),
            NodeType::Var(_) => None,
            NodeType::MetaVar(_) => None,
            NodeType::Neg => {
                if self.children.len() == 1 {
                    match self.children[0].const_eval() {
                        Some(v) => 0i64.checked_sub(v),
                        None => None,
                    }
                } else {
                    None
                }
            },
            _ => {
                if self.children.len() != 2 {
                    return None;
                }
                let a = match self.children[0].const_eval() {
                    Some(a) => a,
                    None => {
                        return None;
                    },
                };
                let b = match self.children[1].const_eval() {
                    Some(b) => b,
                    None => {
                        return None;
                    },
                };
                match &self.t {
                    NodeType::Add => a.checked_add(b),
                    NodeType::Sub => a.checked_sub(b),
                    NodeType::Mul => a.checked_mul(b),
                    NodeType::Div => {
                        match a.checked_rem_euclid(b) {
                            None => {
                                proof {
                                    if b != 0 {
                                        assert(a == i64::MIN && b == -1);
                                        assert(a as int % b as int == 0) by (nonlinear_arith)
                                            requires a == i64::MIN && b == -1;
                                        assert(a as int / b as int == -(a as int))
                                            by (nonlinear_arith)
                                            requires a == i64::MIN && b == -1;
                                        assert(!in_i64(a as int / b as int));
                                    }
                                }
                                None
                            },
                            Some(rem) => {
                                if rem != 0 {
                                    None
                                } else {
                                    a.checked_div_euclid(b)
                                }
                            },
                        }
                    },
                    _ => None,
                }
            },
        }
    }
}

/// Evaluation respects integer arithmetic: an addition whose operands
/// evaluate and whose sum is in range evaluates to the sum, and likewise
/// for the other operators.
pub proof fn lemma_eval_arithmetic(l: ExprView, r: ExprView, a: int, b: int)
    requires
        eval(l) == Some(a),
        eval(r) == Some(b),
    ensures
        in_i64(a + b) ==> eval(binary(TagView::Add, l, r)) == Some(a + b),
        in_i64(a - b) ==> eval(binary(TagView::Sub, l, r)) == Some(a - b),
        in_i64(a * b) ==> eval(binary(TagView::Mul, l, r)) == Some(a * b),
        b != 0 && a % b == 0 && in_i64(a / b) ==> eval(binary(TagView::Div, l, r)) == Some(a / b),
{
}

/// Evaluation never divides by zero: a division that evaluates has a
/// divisor that evaluates to a nonzero integer dividing the dividend
/// exactly.
pub proof fn lemma_eval_div_safe(e: ExprView)
    requires
        e.t == TagView::Div,
        eval(e) is Some,
    ensures
        e.children.len() == 2,
        eval(e.children[1]) is Some,
        eval(e.children[1]).unwrap() != 0,
        eval(e.children[0]).unwrap() % eval(e.children[1]).unwrap() == 0,
        eval(e) == Some(eval(e.children[0]).unwrap() / eval(e.children[1]).unwrap()),
{
}

} // verus!
