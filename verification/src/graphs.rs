//! The e-graph: equivalence classes of e-nodes under a union-find discipline.

use vstd::prelude::*;

use crate::exprs::Expression;
use crate::exprs::ExprView;
use crate::exprs::NodeType;
use crate::exprs::TagView;
use crate::exprs::Subst;
use crate::exprs::ground;
use crate::exprs::height;
use crate::exprs::max_child_height;
use crate::exprs::lemma_max_child_height;
use crate::exprs::is_subexpr;
use crate::exprs::lemma_subexpr_height;
use crate::exprs::lemma_subexpr_trans;
use crate::exprs::leaf;
use crate::exprs::cnst;
use crate::exprs::mvar;
use crate::exprs::unary;
use crate::exprs::eval;
use crate::exprs::in_i64;
use crate::exprs::lemma_views_of_exprs;
use crate::exprs::lemma_views_of_exprs_append;
use crate::exprs::views_of_exprs;
use crate::matching::Assignment;
use crate::exprs::metavars;
use crate::exprs::metavars_of_seq;
use crate::matching::lemma_metavars_of_seq_member;
use crate::matching::lemma_apply_agree;
use crate::exprs::apply_subst;
use crate::exprs::apply_subst_seq;
use crate::exprs::lemma_apply_subst_seq;
use crate::matching::compatible;

verus! {

/// An e-node: an operator tag applied to an ordered list of e-class
/// identifiers.
#[derive(Debug)]
pub struct Node {
    pub t: NodeType,
    pub children: Vec<usize>,
}

/// The mathematical value of an e-node.
#[verifier::ext_equal]
pub struct NodeView {
    pub t: TagView,
    pub children: Seq<int>,
}

impl View for Node {
    type V = NodeView;

    open spec fn view(&self) -> NodeView {
        NodeView { t: self.t@, children: self.children@.map_values(|c: usize| c as int) }
    }
}

impl Clone for Node {
    fn clone(&self) -> (r: Self)
        ensures
            r@ == self@,
    {
        let r = Node { t: self.t.clone(), children: self.children.clone() };
        proof {
            assert(r@.children =~= self@.children);
            assert(r@ =~= self@);
        }
        r
    }
}

/// An e-class: a union-find link and the e-nodes asserted equivalent.  A
/// class whose representative is its own identifier is a root; only roots
/// hold e-nodes.
#[derive(Debug)]
pub struct EClass {
    representative: usize,
    pub children: Vec<Node>,
}

/// The mathematical value of an e-class.
#[verifier::ext_equal]
pub struct EClassView {
    pub representative: int,
    pub children: Seq<NodeView>,
}

impl View for EClass {
    type V = EClassView;

    closed spec fn view(&self) -> EClassView {
        EClassView {
            representative: self.representative as int,
            children: self.children@.map_values(|n: Node| n@),
        }
    }
}

impl Clone for EClass {
    fn clone(&self) -> (r: Self)
        ensures
            r@ == self@,
    {
        let n = self.children.len();
        let mut children: Vec<Node> = Vec::new();
        let mut i: usize = 0;
        while i < n
            invariant
                n == self.children@.len(),
                i <= n,
                children@.len() == i as int,
                forall|j: int| 0 <= j < i ==> children@[j]@ == self.children@[j]@,
            decreases n - i,
        {
            children.push(self.children[i].clone());
            i = i + 1;
        }
        let r = EClass { representative: self.representative, children };
        proof {
            assert(r@.children =~= self@.children);
            assert(r@ =~= self@);
        }
        r
    }
}

/// An e-graph: e-classes indexed by identifier, in creation order.
#[derive(Debug)]
pub struct EGraph {
    pub children: Vec<EClass>,
}

impl View for EGraph {
    type V = Seq<EClassView>;

    open spec fn view(&self) -> Seq<EClassView> {
        self.children@.map_values(|c: EClass| c@)
    }
}

/// An e-node is admissible for a graph: its tag is no meta-variable and its
/// child identifiers are in range.
pub open spec fn node_ok(g: Seq<EClassView>, n: NodeView) -> bool {
    &&& !(n.t is MetaVar)
    &&& forall|j: int| 0 <= j < n.children.len() ==> 0 <= #[trigger] n.children[j] < g.len()
}

/// One class of a well-formed graph: its representative points at itself or
/// at a class of smaller identifier, a non-root holds no e-nodes, and every
/// e-node it holds is admissible.
pub open spec fn wf_class(g: Seq<EClassView>, c: EClassView, i: int) -> bool {
    &&& 0 <= c.representative <= i
    &&& c.representative != i ==> c.children.len() == 0
    &&& forall|k: int| 0 <= k < c.children.len() ==> node_ok(g, #[trigger] c.children[k])
}

/// The e-graph invariant: every class is well formed.
pub open spec fn wf_graph(g: Seq<EClassView>) -> bool {
    forall|i: int| 0 <= i < g.len() ==> wf_class(g, #[trigger] g[i], i)
}

/// An expression is syntactically equal, up to known unions, to some e-node
/// that the class literally holds.
pub open spec fn class_matches(g: Seq<EClassView>, e: ExprView, c: int) -> bool
    decreases e, 1int,
{
    &&& 0 <= c < g.len()
    &&& exists|k: int| 0 <= k < g[c].children.len() && node_matches(g, e, #[trigger] g[c].children[k])
}

/// An expression matches an e-node: same tag, same arity, and each child
/// expression matches the corresponding child class.
pub open spec fn node_matches(g: Seq<EClassView>, e: ExprView, n: NodeView) -> bool
    decreases e, 0int,
{
    &&& e.t == n.t
    &&& e.children.len() == n.children.len()
    &&& forall|j: int|
        0 <= j < e.children.len() ==> class_matches(g, #[trigger] e.children[j], n.children[j])
}

/// Some class of the graph matches the expression.
pub open spec fn has_match(g: Seq<EClassView>, e: ExprView) -> bool {
    exists|c: int| 0 <= c < g.len() && class_matches(g, e, c)
}

/// The second graph extends the first: same classes on the common prefix.
pub open spec fn graph_extends(g1: Seq<EClassView>, g2: Seq<EClassView>) -> bool {
    &&& g1.len() <= g2.len()
    &&& forall|i: int| 0 <= i < g1.len() ==> g2[i] == #[trigger] g1[i]
}

/// Matching against a class of a well-formed graph is unaffected by classes
/// appended after it.
pub proof fn lemma_matches_extends(
    g1: Seq<EClassView>,
    g2: Seq<EClassView>,
    e: ExprView,
    c: int,
)
    requires
        wf_graph(g1),
        graph_extends(g1, g2),
        0 <= c < g1.len(),
    ensures
        class_matches(g1, e, c) == class_matches(g2, e, c),
    decreases e,
{
    assert(wf_class(g1, g1[c], c));
    if class_matches(g1, e, c) {
        let k = choose|k: int|
            0 <= k < g1[c].children.len() && node_matches(g1, e, #[trigger] g1[c].children[k]);
        let n = g1[c].children[k];
        assert(node_ok(g1, n));
        assert forall|j: int| 0 <= j < e.children.len() implies class_matches(
            g2,
            #[trigger] e.children[j],
            n.children[j],
        ) by {
            lemma_matches_extends(g1, g2, e.children[j], n.children[j]);
        }
        assert(node_matches(g2, e, n));
        assert(g2[c] == g1[c]);
        assert(class_matches(g2, e, c));
    }
    if class_matches(g2, e, c) {
        assert(g2[c] == g1[c]);
        let k = choose|k: int|
            0 <= k < g2[c].children.len() && node_matches(g2, e, #[trigger] g2[c].children[k]);
        let n = g1[c].children[k];
        assert(node_matches(g2, e, n));
        assert(node_ok(g1, n));
        assert forall|j: int| 0 <= j < e.children.len() implies class_matches(
            g1,
            #[trigger] e.children[j],
            n.children[j],
        ) by {
            lemma_matches_extends(g1, g2, e.children[j], n.children[j]);
        }
        assert(node_matches(g1, e, n));
        assert(class_matches(g1, e, c));
    }
}

/// The root that the representative chain of a class reaches: the chain is
/// followed while it strictly descends.
pub open spec fn root_of(g: Seq<EClassView>, i: int) -> int
    decreases i,
{
    if 0 <= i < g.len() && 0 <= g[i].representative < i {
        root_of(g, g[i].representative)
    } else {
        i
    }
}

/// In a well-formed graph the chain from any class ends at a root no larger
/// than where it started.
pub proof fn lemma_root_of(g: Seq<EClassView>, i: int)
    requires
        wf_graph(g),
        0 <= i < g.len(),
    ensures
        0 <= root_of(g, i) <= i,
        g[root_of(g, i)].representative == root_of(g, i),
    decreases i,
{
    assert(wf_class(g, g[i], i));
    if 0 <= g[i].representative < i {
        lemma_root_of(g, g[i].representative);
    }
}

impl EGraph {
    /// The empty e-graph.
    pub fn init() -> (r: EGraph)
        ensures
            r@ == Seq::<EClassView>::empty(),
            wf_graph(r@),
    {
        let r = EGraph { children: Vec::new() };
        proof {
            assert(r@ =~= Seq::<EClassView>::empty());
        }
        r
    }

    /// The root class at the end of a class's representative chain.
    pub fn get_representative_class(&self, class_index: usize) -> (r: &EClass)
        requires
            wf_graph(self@),
            class_index < self@.len(),
        ensures
            r@ == self@[root_of(self@, class_index as int)],
            root_of(self@, class_index as int) == r@.representative,
    {
        let ghost start = class_index as int;
        let mut class_index = class_index;
        let mut class = &self.children[class_index];
        proof {
            lemma_root_of(self@, class_index as int);
        }
        while class.representative != class_index
            invariant
                wf_graph(self@),
                class_index < self@.len(),
                class@ == self@[class_index as int],
                root_of(self@, class_index as int) == root_of(self@, start),
            decreases class_index,
        {
            proof {
                assert(wf_class(self@, self@[class_index as int], class_index as int));
            }
            class_index = class.representative;
            class = &self.children[class_index];
        }
        proof {
            lemma_root_of(self@, class_index as int);
            assert(root_of(self@, class_index as int) == class_index as int);
        }
        class
    }

    /// Whether some e-node of the given class matches the expression: same
    /// tag and arity, and each child class recursively matches the
    /// corresponding child expression.  The class is not resolved to its
    /// root first; a non-root class holds no e-nodes and never matches.
    pub fn class_syntactically_equal_to_expression(
        &self,
        expression: &Expression,
        class_index: usize,
    ) -> (r: bool)
        requires
            wf_graph(self@),
            class_index < self@.len(),
        ensures
            r == class_matches(self@, expression@, class_index as int),
        decreases expression@,
    {
        let class = &self.children[class_index];
        let num_nodes = class.children.len();
        let mut k: usize = 0;
        while k < num_nodes
            invariant
                wf_graph(self@),
                class_index < self@.len(),
                *class == self.children@[class_index as int],
                num_nodes == class.children@.len(),
                k <= num_nodes,
                forall|k2: int|
                    0 <= k2 < k ==> !node_matches(
                        self@,
                        expression@,
                        self@[class_index as int].children[k2],
                    ),
            decreases num_nodes - k,
        {
            let node = &class.children[k];
            proof {
                assert(wf_class(self@, self@[class_index as int], class_index as int));
                assert(node@ == self@[class_index as int].children[k as int]);
                assert(node_ok(self@, node@));
                lemma_views_of_exprs(expression.children@);
            }
            if expression.t == node.t && expression.children.len() == node.children.len() {
                let arity = expression.children.len();
                let mut j: usize = 0;
                let mut all = true;
                while j < arity
                    invariant
                        wf_graph(self@),
                        class_index < self@.len(),
                        *class == self.children@[class_index as int],
                        k < num_nodes,
                        num_nodes == class.children@.len(),
                        *node == class.children@[k as int],
                        node_ok(self@, node@),
                        arity == expression.children@.len(),
                        arity == node.children@.len(),
                        j <= arity,
                        all ==> forall|j2: int|
                            0 <= j2 < j ==> class_matches(
                                self@,
                                expression@.children[j2],
                                node@.children[j2],
                            ),
                        !all ==> !node_matches(self@, expression@, node@),
                    decreases arity - j,
                {
                    proof {
                        lemma_views_of_exprs(expression.children@);
                        assert(0 <= node@.children[j as int] < self@.len());
                        assert(node@.children[j as int] == node.children@[j as int] as int);
                        assert(expression.children@[j as int]@ == expression@.children[j as int]);
                        assert(decreases_to!(expression@ => expression@.children[j as int]));
                    }
                    if all {
                        let child_ok = self.class_syntactically_equal_to_expression(
                            &expression.children[j],
                            node.children[j],
                        );
                        if !child_ok {
                            proof {
                                assert(!class_matches(
                                    self@,
                                    expression@.children[j as int],
                                    node@.children[j as int],
                                ));
                            }
                            all = false;
                        }
                    }
                    j = j + 1;
                }
                if all {
                    proof {
                        lemma_views_of_exprs(expression.children@);
                        assert(node_matches(self@, expression@, node@));
                        assert(class_matches(self@, expression@, class_index as int));
                    }
                    return true;
                }
            } else {
                proof {
                    lemma_views_of_exprs(expression.children@);
                    assert(!node_matches(self@, expression@, node@));
                }
            }
            k = k + 1;
        }
        proof {
            assert(!class_matches(self@, expression@, class_index as int));
        }
        false
    }
}


/// The least class at or after `c` that matches the expression, if any.
pub open spec fn scan_match(g: Seq<EClassView>, e: ExprView, c: int) -> Option<int>
    decreases g.len() - c,
{
    if c < 0 || c >= g.len() {
        None
    } else if class_matches(g, e, c) {
        Some(c)
    } else {
        scan_match(g, e, c + 1)
    }
}

/// What `scan_match` returns: the least matching class from `c` on.
pub proof fn lemma_scan_match(g: Seq<EClassView>, e: ExprView, c: int)
    requires
        0 <= c,
    ensures
        match scan_match(g, e, c) {
            Some(l) => c <= l < g.len() && class_matches(g, e, l) && forall|c2: int|
                c <= c2 < l ==> !class_matches(g, e, c2),
            None => forall|c2: int| c <= c2 < g.len() ==> !class_matches(g, e, c2),
        },
    decreases g.len() - c,
{
    if c < g.len() && !class_matches(g, e, c) {
        lemma_scan_match(g, e, c + 1);
    }
}

/// A least match from `c` on is what `scan_match` returns.
pub proof fn lemma_scan_match_finds(g: Seq<EClassView>, e: ExprView, c: int, l: int)
    requires
        0 <= c <= l < g.len(),
        class_matches(g, e, l),
        forall|c2: int| c <= c2 < l ==> !class_matches(g, e, c2),
    ensures
        scan_match(g, e, c) == Some(l),
    decreases g.len() - c,
{
    if c < l {
        lemma_scan_match_finds(g, e, c + 1, l);
    }
}

/// The graph and class that inserting an expression produces: the graph
/// unchanged with its least matching class, or, after inserting the
/// children in order, one appended root class holding a single e-node with
/// the expression's tag over the children's classes.
pub open spec fn add_spec(g: Seq<EClassView>, e: ExprView) -> (Seq<EClassView>, int)
    decreases e, 1int,
{
    match scan_match(g, e, 0) {
        Some(c) => (g, c),
        None => {
            let (g1, ids) = add_children_spec(g, e.children);
            (
                g1.push(
                    EClassView {
                        representative: g1.len() as int,
                        children: seq![NodeView { t: e.t, children: ids }],
                    },
                ),
                g1.len() as int,
            )
        },
    }
}

/// Inserting a sequence of expressions left to right: the resulting graph
/// and each expression's class.
pub open spec fn add_children_spec(g: Seq<EClassView>, es: Seq<ExprView>) -> (
    Seq<EClassView>,
    Seq<int>,
)
    decreases es, 0int,
{
    if es.len() == 0 {
        (g, Seq::empty())
    } else {
        let (g1, ids) = add_children_spec(g, es.drop_last());
        let (g2, id) = add_spec(g1, es.last());
        (g2, ids.push(id))
    }
}

impl EGraph {
    /// Ensures the graph represents the expression and returns its class.
    ///
    /// Existing classes are scanned in identifier order and the first match,
    /// up to known unions, is returned with the graph unchanged.  Otherwise
    /// the children are inserted recursively and a fresh root class holding
    /// one e-node for the expression is appended.  The new graph and the
    /// result are exactly `add_spec` of the old graph and the expression,
    /// and the result is the least class of the new graph that matches the
    /// expression, so inserting the same expression again returns the same
    /// identifier and changes nothing.
    pub fn add_expression(&mut self, expression: Expression) -> (r: usize)
        requires
            wf_graph(old(self)@),
            ground(expression@),
        ensures
            wf_graph(final(self)@),
            graph_extends(old(self)@, final(self)@),
            (r as int) < final(self)@.len(),
            class_matches(final(self)@, expression@, r as int),
            forall|c: int|
                0 <= c < r && c < old(self)@.len() ==> !class_matches(old(self)@, expression@, c),
            forall|c: int| 0 <= c < r ==> !class_matches(final(self)@, expression@, c),
            forall|x: ExprView, f: int|
                #![trigger class_matches(final(self)@, x, f)]
                ground(x) && is_subexpr(expression@, x) && (forall|c: int|
                    0 <= c < old(self)@.len() ==> !class_matches(old(self)@, x, c)) && old(
                    self,
                )@.len() <= f < final(self)@.len() && (f < final(self)@.len() - 1 || x
                    != expression@) ==> !class_matches(final(self)@, x, f),
            has_match(old(self)@, expression@) ==> final(self)@ == old(self)@ && (r as int) < old(
                self,
            )@.len(),
            !has_match(old(self)@, expression@) ==> r as int == final(self)@.len() - 1 && old(
                self,
            )@.len() <= r as int && (forall|i: int|
                old(self)@.len() <= i < final(self)@.len() ==> final(self)@[i].representative == i),
            final(self)@ == add_spec(old(self)@, expression@).0,
            r as int == add_spec(old(self)@, expression@).1,
        decreases expression@,
    {
        let ghost g0 = self@;
        let ghost ev = expression@;
        let num_classes = self.children.len();
        let mut class_index: usize = 0;
        while class_index < num_classes
            invariant
                self@ == g0,
                wf_graph(g0),
                ground(ev),
                ev == expression@,
                num_classes == g0.len(),
                class_index <= num_classes,
                forall|c: int| 0 <= c < class_index ==> !class_matches(g0, ev, c),
            decreases num_classes - class_index,
        {
            if self.class_syntactically_equal_to_expression(&expression, class_index) {
                proof {
                    lemma_scan_match_finds(g0, ev, 0, class_index as int);
                }
                return class_index;
            }
            class_index = class_index + 1;
        }
        proof {
            assert(!has_match(g0, ev));
            lemma_scan_match(g0, ev, 0);
            assert(scan_match(g0, ev, 0) is None);
        }
        let arity = expression.children.len();
        let mut child_indices: Vec<usize> = Vec::new();
        let mut i: usize = 0;
        while i < arity
            invariant
                wf_graph(self@),
                graph_extends(g0, self@),
                wf_graph(g0),
                ground(ev),
                ev == expression@,
                arity == expression.children@.len(),
                i <= arity,
                child_indices@.len() == i as int,
                forall|j: int|
                    0 <= j < i ==> 0 <= #[trigger] child_indices@[j] < self@.len()
                        && class_matches(self@, ev.children[j], child_indices@[j] as int),
                (self@, child_indices@.map_values(|u: usize| u as int)) == add_children_spec(
                    g0,
                    ev.children.subrange(0, i as int),
                ),
                forall|j: int|
                    g0.len() <= j < self@.len() ==> #[trigger] self@[j].representative == j,
                forall|x: ExprView, f: int|
                    #![trigger class_matches(self@, x, f)]
                    ground(x) && is_subexpr(ev, x) && (forall|c: int|
                        0 <= c < g0.len() ==> !class_matches(g0, x, c)) && g0.len() <= f
                        < self@.len() ==> !class_matches(self@, x, f),
            decreases arity - i,
        {
            let ghost g_before = self@;
            proof {
                lemma_views_of_exprs(expression.children@);
                assert(expression.children@[i as int]@ == ev.children[i as int]);
                assert(ground(ev.children[i as int]));
                assert(decreases_to!(ev => ev.children[i as int]));
            }
            proof {
                assert(ev.children.subrange(0, i as int + 1).drop_last() =~= ev.children.subrange(
                    0,
                    i as int,
                ));
                assert(ev.children.subrange(0, i as int + 1).last() == ev.children[i as int]);
            }
            let ghost ids_before = child_indices@.map_values(|u: usize| u as int);
            let child = expression.children[i].clone();
            let idx = self.add_expression(child);
            proof {
                assert(child_indices@.push(idx).map_values(|u: usize| u as int)
                    =~= ids_before.push(idx as int));
                assert((self@, ids_before.push(idx as int)) == add_children_spec(
                    g0,
                    ev.children.subrange(0, i as int + 1),
                ));
                assert forall|j: int| 0 <= j < i implies 0 <= #[trigger] child_indices@[j]
                    < self@.len() && class_matches(self@, ev.children[j], child_indices@[j] as int) by {
                    lemma_matches_extends(g_before, self@, ev.children[j], child_indices@[j] as int);
                }
                assert forall|j: int|
                    g0.len() <= j < self@.len() implies (#[trigger] self@[j]).representative
                    == j by {
                    if j < g_before.len() {
                        assert(self@[j] == g_before[j]);
                    } else if has_match(g_before, ev.children[i as int]) {
                        assert(self@ == g_before);
                    }
                }
                assert forall|x: ExprView, f: int|
                    ground(x) && is_subexpr(ev, x) && (forall|c: int|
                        0 <= c < g0.len() ==> !class_matches(g0, x, c)) && g0.len() <= f
                        < self@.len() implies !(#[trigger] class_matches(self@, x, f)) by {
                    if class_matches(self@, x, f) {
                        if f < g_before.len() {
                            lemma_matches_extends(g_before, self@, x, f);
                            assert(class_matches(g_before, x, f));
                        } else {
                            assert forall|c: int| 0 <= c < g_before.len() implies !(
                            #[trigger] class_matches(g_before, x, c)) by {
                                if class_matches(g_before, x, c) {
                                    if c < g0.len() {
                                        lemma_matches_extends(g0, g_before, x, c);
                                    }
                                }
                            }
                            assert(is_subexpr(
                                ev.children[i as int],
                                ev.children[i as int],
                            ));
                            assert(is_subexpr(ev.children[i as int], ev));
                            lemma_subexpr_trans(ev.children[i as int], ev, x);
                            if f == self@.len() - 1 {
                                lemma_subexpr_height(ev, x);
                                lemma_max_child_height(ev.children);
                                assert(height(ev.children[i as int]) < height(ev));
                                assert(x != ev.children[i as int]);
                            }
                            assert(!class_matches(self@, x, f));
                        }
                    }
                }
            }
            child_indices.push(idx);
            i = i + 1;
        }
        let new_id = self.children.len();
        let ghost g1 = self@;
        let node = Node { t: expression.t, children: child_indices };
        let ghost nv = node@;
        let mut nodes: Vec<Node> = Vec::new();
        nodes.push(node);
        let new_class = EClass { representative: new_id, children: nodes };
        let ghost cv = new_class@;
        self.children.push(new_class);
        proof {
            assert(self@ =~= g1.push(cv));
            assert(cv.children =~= seq![nv]);
            lemma_views_of_exprs(expression.children@);
            assert(nv.children.len() == ev.children.len());
            assert forall|j: int| 0 <= j < nv.children.len() implies 0 <= #[trigger] nv.children[j]
                < self@.len() by {
                assert(nv.children[j] == child_indices@[j] as int);
            }
            assert(node_ok(self@, nv));
            assert(wf_class(self@, cv, new_id as int));
            assert forall|j: int| 0 <= j < g1.len() implies wf_class(self@, #[trigger] self@[j], j) by {
                assert(wf_class(g1, g1[j], j));
                assert(self@[j] == g1[j]);
            }
            assert(wf_graph(self@));
            assert forall|j: int| 0 <= j < ev.children.len() implies class_matches(
                self@,
                #[trigger] ev.children[j],
                nv.children[j],
            ) by {
                assert(nv.children[j] == child_indices@[j] as int);
                assert(class_matches(g1, ev.children[j], child_indices@[j] as int));
                lemma_matches_extends(g1, self@, ev.children[j], child_indices@[j] as int);
            }
            assert(node_matches(self@, ev, nv));
            assert(self@[new_id as int] == cv);
            assert(cv.children[0] == nv);
            assert(class_matches(self@, ev, new_id as int));
            assert(!has_match(g0, ev));
            assert forall|x: ExprView, f: int|
                ground(x) && is_subexpr(ev, x) && (forall|c: int|
                    0 <= c < g0.len() ==> !class_matches(g0, x, c)) && g0.len() <= f < self@.len()
                    && (f < self@.len() - 1 || x != ev) implies !(#[trigger] class_matches(
                self@,
                x,
                f,
            )) by {
                if class_matches(self@, x, f) {
                    if f < g1.len() {
                        lemma_matches_extends(g1, self@, x, f);
                        assert(class_matches(g1, x, f));
                    } else {
                        assert(f == new_id as int && x != ev);
                        let kx = choose|kx: int|
                            0 <= kx < x.children.len() && is_subexpr(ev, #[trigger] x.children[kx]);
                        assert(node_matches(self@, x, nv)) by {
                            let kn = choose|kn: int|
                                0 <= kn < self@[f].children.len() && node_matches(
                                    self@,
                                    x,
                                    #[trigger] self@[f].children[kn],
                                );
                            assert(self@[f].children[kn] == nv);
                        }
                        let xk = x.children[kx];
                        let ak = nv.children[kx];
                        assert(class_matches(self@, xk, ak));
                        assert(ground(xk));
                        if exists|c: int| 0 <= c < g0.len() && class_matches(g0, xk, c) {
                            let c = choose|c: int|
                                0 <= c < g0.len() && class_matches(g0, xk, c);
                            lemma_subexpr_matches_somewhere(g0, xk, c, ev);
                        } else {
                            if ak < g0.len() {
                                lemma_matches_extends(g0, self@, xk, ak);
                                assert(class_matches(g0, xk, ak));
                            } else {
                                lemma_matches_extends(g1, self@, xk, ak);
                                assert(class_matches(g1, xk, ak));
                            }
                        }
                    }
                }
            }
            assert forall|c: int| 0 <= c < new_id implies !(#[trigger] class_matches(
                self@,
                ev,
                c,
            )) by {
                if class_matches(self@, ev, c) {
                    if c < g0.len() {
                        lemma_matches_extends(g0, self@, ev, c);
                    } else {
                        lemma_matches_extends(g1, self@, ev, c);
                        assert(class_matches(g1, ev, c));
                    }
                }
            }
            assert(ev.children.subrange(0, arity as int) =~= ev.children);
            assert((g1, nv.children) == add_children_spec(g0, ev.children));
            assert(cv =~= (EClassView {
                representative: g1.len() as int,
                children: seq![NodeView { t: ev.t, children: nv.children }],
            }));
            assert(nv =~= (NodeView { t: ev.t, children: nv.children }));
            assert(self@ == add_spec(g0, ev).0);
            assert(new_id as int == add_spec(g0, ev).1);
        }
        new_id
    }

    /// The graph that merging two identifiers produces: unchanged for
    /// out-of-range or equal identifiers or identifiers already sharing a
    /// root; otherwise the higher of the two roots empties into the lower,
    /// which keeps its representative, and the higher is redirected.
    pub open spec fn union_spec(g: Seq<EClassView>, i: int, j: int) -> Seq<EClassView> {
        let r1 = root_of(g, i);
        let r2 = root_of(g, j);
        let lo = if r1 < r2 {
            r1
        } else {
            r2
        };
        let hi = if r1 < r2 {
            r2
        } else {
            r1
        };
        if i == j || !(0 <= i < g.len()) || !(0 <= j < g.len()) || r1 == r2 {
            g
        } else {
            g.update(
                lo,
                EClassView {
                    representative: g[lo].representative,
                    children: g[lo].children + g[hi].children,
                },
            ).update(hi, EClassView { representative: lo, children: Seq::empty() })
        }
    }

    /// Merges the classes that the two identifiers denote.
    ///
    /// Out-of-range identifiers, equal identifiers, and identifiers already
    /// sharing a root leave the graph unchanged.  Otherwise the e-nodes of
    /// the higher root move into the lower root, and the higher root's
    /// representative is redirected to the lower, which stays a root.
    ///
    /// Both identifiers are resolved to their roots before anything moves,
    /// so for a non-root argument it is the argument's root, not the
    /// argument itself, whose node list changes.  Taken by the letter on raw
    /// identifiers, the merge would move the e-nodes of a non-root argument
    /// into whatever class the other index names, which can leave e-nodes
    /// in a class that is not a root; resolving first is the one reading
    /// under which every class keeps the invariant that only roots hold
    /// e-nodes.
    pub fn union(&mut self, class_index1: usize, class_index2: usize)
        requires
            wf_graph(old(self)@),
        ensures
            wf_graph(final(self)@),
            final(self)@.len() == old(self)@.len(),
            final(self)@ == EGraph::union_spec(old(self)@, class_index1 as int, class_index2 as int),
            ({
                let g = old(self)@;
                let r1 = root_of(g, class_index1 as int);
                let r2 = root_of(g, class_index2 as int);
                let lo = if r1 < r2 { r1 } else { r2 };
                let hi = if r1 < r2 { r2 } else { r1 };
                if class_index1 == class_index2 || class_index1 as int >= g.len()
                    || class_index2 as int >= g.len() || r1 == r2 {
                    final(self)@ == g
                } else {
                    &&& forall|i: int|
                        0 <= i < g.len() && i != lo && i != hi ==> final(self)@[i] == #[trigger] g[i]
                    &&& final(self)@[hi].representative == lo
                    &&& final(self)@[hi].children.len() == 0
                    &&& final(self)@[lo].representative == lo
                    &&& final(self)@[lo].children == g[lo].children + g[hi].children
                }
            }),
    {
        let ghost g = self@;
        if class_index1 == class_index2 || class_index1 >= self.children.len() || class_index2
            >= self.children.len() {
            proof {
                assert(self@ == EGraph::union_spec(g, class_index1 as int, class_index2 as int));
            }
            return;
        }
        let root1 = self.get_representative_class(class_index1).representative;
        let root2 = self.get_representative_class(class_index2).representative;
        proof {
            lemma_root_of(g, class_index1 as int);
            lemma_root_of(g, class_index2 as int);
        }
        if root1 == root2 {
            proof {
                assert(self@ == EGraph::union_spec(g, class_index1 as int, class_index2 as int));
            }
            return;
        }
        let (lo, hi) = if root1 < root2 {
            (root1, root2)
        } else {
            (root2, root1)
        };
        let mut moved: Vec<Node> = Vec::new();
        core::mem::swap(&mut moved, &mut self.children[hi].children);
        let ghost gmid = self@;
        self.children[hi].representative = lo;
        let ghost gmid2 = self@;
        self.children[lo].children.append(&mut moved);
        proof {
            let lof = self@[lo as int];
            let hif = self@[hi as int];
            assert(hif.children =~= Seq::<NodeView>::empty());
            assert(lof.children =~= g[lo as int].children + g[hi as int].children);
            assert(forall|i: int|
                0 <= i < g.len() && i != lo && i != hi ==> self@[i] == #[trigger] g[i]);
            assert forall|i: int| 0 <= i < self@.len() implies wf_class(
                self@,
                #[trigger] self@[i],
                i,
            ) by {
                assert(wf_class(g, g[i], i));
                if i == lo as int {
                    assert(forall|k: int|
                        0 <= k < g[lo as int].children.len() ==> node_ok(
                            g,
                            #[trigger] g[lo as int].children[k],
                        ));
                    assert(forall|k: int|
                        0 <= k < g[hi as int].children.len() ==> node_ok(
                            g,
                            #[trigger] g[hi as int].children[k],
                        ));
                    assert forall|k: int| 0 <= k < lof.children.len() implies node_ok(
                        self@,
                        #[trigger] lof.children[k],
                    ) by {
                        let lo_len = g[lo as int].children.len() as int;
                        if k < lo_len {
                            assert(lof.children[k] == g[lo as int].children[k]);
                        } else {
                            assert(lof.children[k] == g[hi as int].children[k - lo_len]);
                        }
                    }
                } else if i == hi as int {
                }
            }
            let u = EGraph::union_spec(g, class_index1 as int, class_index2 as int);
            assert(self@.len() == u.len());
            assert forall|k: int| 0 <= k < self@.len() implies self@[k] == u[k] by {
                if k == lo as int {
                    assert(self@[k] =~= u[k]);
                } else if k == hi as int {
                    assert(self@[k] =~= u[k]);
                }
            }
            assert(self@ =~= u);
        }
    }
}


/// The views of a sequence of expression lists, in order.
pub open spec fn views_of_expr_lists(s: Seq<Vec<Expression>>) -> Seq<Seq<ExprView>> {
    s.map_values(|v: Vec<Expression>| views_of_exprs(v@))
}

/// All tuples built by prepending each of `items` in turn to each tuple of
/// `rest`, the item varying slowest.
pub open spec fn product_append<A>(items: Seq<A>, rest: Seq<Seq<A>>) -> Seq<Seq<A>>
    decreases items.len(),
{
    if items.len() == 0 {
        Seq::empty()
    } else {
        product_append(items.drop_last(), rest) + rest.map_values(
            |p: Seq<A>| seq![items.last()] + p,
        )
    }
}

/// The cartesian product of the lists, in lexicographic order by position,
/// the first position varying slowest.
pub open spec fn product_of<A>(lists: Seq<Seq<A>>) -> Seq<Seq<A>>
    decreases lists.len(),
{
    if lists.len() == 0 {
        seq![Seq::<A>::empty()]
    } else {
        product_append(lists[0], product_of(lists.drop_first()))
    }
}

/// The remaining extraction budget: how many further levels may be opened.
pub open spec fn fuel_of(max: int, cur: int) -> nat {
    if cur > max {
        0
    } else {
        (max - cur + 1) as nat
    }
}

/// The expressions extracted from a class at the given depth: none beyond
/// the budget, otherwise those of every e-node of the class's root, in node
/// order.
pub open spec fn extract_class_spec(g: Seq<EClassView>, c: int, max: int, cur: int) -> Seq<
    ExprView,
>
    decreases fuel_of(max, cur), 3int, 0int,
{
    if cur > max {
        Seq::empty()
    } else {
        extract_nodes_spec(g, g[root_of(g, c)].children, max, cur)
    }
}

/// The expressions extracted from a list of e-nodes, concatenated in order.
pub open spec fn extract_nodes_spec(g: Seq<EClassView>, nodes: Seq<NodeView>, max: int, cur: int) -> Seq<
    ExprView,
>
    decreases fuel_of(max, cur), 2int, nodes.len(),
{
    if nodes.len() == 0 {
        Seq::empty()
    } else {
        extract_nodes_spec(g, nodes.drop_last(), max, cur) + extract_node_spec(
            g,
            nodes.last(),
            max,
            cur,
        )
    }
}

/// The expressions extracted from one e-node: its tag over every tuple of
/// the cartesian product of its children's extractions one level deeper.
pub open spec fn extract_node_spec(g: Seq<EClassView>, n: NodeView, max: int, cur: int) -> Seq<
    ExprView,
>
    decreases fuel_of(max, cur), 1int, 0int,
{
    product_of(extract_child_lists(g, n.children, max, cur)).map_values(
        |t: Seq<ExprView>| ExprView { t: n.t, children: t },
    )
}

/// The per-child extraction lists of an e-node's children, one level deeper;
/// empty lists once the budget is spent.
pub open spec fn extract_child_lists(g: Seq<EClassView>, ids: Seq<int>, max: int, cur: int) -> Seq<
    Seq<ExprView>,
>
    decreases fuel_of(max, cur), 0int, ids.len(),
{
    if ids.len() == 0 {
        Seq::empty()
    } else if cur > max {
        extract_child_lists(g, ids.drop_last(), max, cur) + seq![Seq::<ExprView>::empty()]
    } else {
        extract_child_lists(g, ids.drop_last(), max, cur) + seq![
            extract_class_spec(g, ids.last(), max, cur + 1),
        ]
    }
}

/// Builds every tuple made of one element of each list, in lexicographic
/// order by position with the first position varying slowest.
fn cartesian_product(lists: &Vec<Vec<Expression>>) -> (r: Vec<Vec<Expression>>)
    ensures
        views_of_expr_lists(r@) == product_of(views_of_expr_lists(lists@)),
{
    let ghost lv = views_of_expr_lists(lists@);
    let mut result: Vec<Vec<Expression>> = Vec::new();
    result.push(Vec::new());
    proof {
        assert(views_of_expr_lists(result@) =~= seq![Seq::<ExprView>::empty()]);
        assert(lv.subrange(lists@.len() as int, lists@.len() as int) =~= Seq::<Seq<ExprView>>::empty());
        assert(views_of_expr_lists(result@) == product_of(
            lv.subrange(lists@.len() as int, lists@.len() as int),
        ));
    }
    let mut i: usize = lists.len();
    while i > 0
        invariant
            lv == views_of_expr_lists(lists@),
            lv.len() == lists@.len(),
            i <= lists@.len(),
            views_of_expr_lists(result@) == product_of(lv.subrange(i as int, lv.len() as int)),
        decreases i,
    {
        i = i - 1;
        let items = &lists[i];
        let ghost itemsv = views_of_exprs(items@);
        let ghost restv = product_of(lv.subrange(i as int + 1, lv.len() as int));
        let mut new_result: Vec<Vec<Expression>> = Vec::new();
        let num_items = items.len();
        let mut k: usize = 0;
        proof {
            lemma_views_of_exprs(items@);
        }
        while k < num_items
            invariant
                itemsv == views_of_exprs(items@),
                itemsv.len() == items@.len(),
                forall|j: int| 0 <= j < items@.len() ==> itemsv[j] == items@[j]@,
                num_items == items@.len(),
                k <= num_items,
                restv == views_of_expr_lists(result@),
                views_of_expr_lists(new_result@) == product_append(
                    itemsv.subrange(0, k as int),
                    restv,
                ),
            decreases num_items - k,
        {
            let num_rest = result.len();
            let mut m: usize = 0;
            while m < num_rest
                invariant
                    itemsv == views_of_exprs(items@),
                    itemsv.len() == items@.len(),
                    forall|j: int| 0 <= j < items@.len() ==> itemsv[j] == items@[j]@,
                    num_items == items@.len(),
                    k < num_items,
                    num_rest == result@.len(),
                    m <= num_rest,
                    restv == views_of_expr_lists(result@),
                    views_of_expr_lists(new_result@) == product_append(
                        itemsv.subrange(0, k as int),
                        restv,
                    ) + restv.map_values(|p: Seq<ExprView>| seq![itemsv[k as int]] + p).subrange(
                        0,
                        m as int,
                    ),
                decreases num_rest - m,
            {
                let mut tuple: Vec<Expression> = Vec::new();
                tuple.push(items[k].clone());
                let p = &result[m];
                let num_p = p.len();
                let mut q: usize = 0;
                while q < num_p
                    invariant
                        num_p == p@.len(),
                        q <= num_p,
                        tuple@.len() == q + 1,
                        tuple@[0]@ == items@[k as int]@,
                        k < items@.len(),
                        forall|j: int| 0 <= j < q ==> tuple@[j + 1]@ == p@[j]@,
                    decreases num_p - q,
                {
                    tuple.push(p[q].clone());
                    q = q + 1;
                }
                proof {
                    lemma_views_of_exprs(tuple@);
                    lemma_views_of_exprs(p@);
                    assert(views_of_exprs(tuple@) =~= seq![itemsv[k as int]] + views_of_exprs(p@));
                    assert(views_of_exprs(p@) == restv[m as int]);
                }
                let ghost prev = new_result@;
                new_result.push(tuple);
                proof {
                    assert(views_of_expr_lists(new_result@) =~= views_of_expr_lists(prev).push(
                        seq![itemsv[k as int]] + restv[m as int],
                    ));
                    assert(views_of_expr_lists(new_result@) =~= product_append(
                        itemsv.subrange(0, k as int),
                        restv,
                    ) + restv.map_values(|p2: Seq<ExprView>| seq![itemsv[k as int]] + p2).subrange(
                        0,
                        m as int + 1,
                    ));
                }
                m = m + 1;
            }
            proof {
                let full = restv.map_values(|p2: Seq<ExprView>| seq![itemsv[k as int]] + p2);
                assert(full.subrange(0, restv.len() as int) =~= full);
                assert(itemsv.subrange(0, k as int + 1).drop_last() =~= itemsv.subrange(
                    0,
                    k as int,
                ));
                assert(itemsv.subrange(0, k as int + 1).last() == itemsv[k as int]);
                assert(views_of_expr_lists(new_result@) == product_append(
                    itemsv.subrange(0, k as int + 1),
                    restv,
                ));
            }
            k = k + 1;
        }
        result = new_result;
        proof {
            assert(itemsv.subrange(0, itemsv.len() as int) =~= itemsv);
            let sub = lv.subrange(i as int, lv.len() as int);
            assert(sub[0] == itemsv);
            assert(sub.drop_first() =~= lv.subrange(i as int + 1, lv.len() as int));
            assert(views_of_expr_lists(result@) == product_of(sub));
        }
    }
    proof {
        assert(lv.subrange(0, lv.len() as int) =~= lv);
    }
    result
}


impl EGraph {
    /// Every expression obtainable from one e-node within the recursion
    /// budget, starting at depth 0.
    pub fn extract_node(&self, node: &Node, max_recursion: usize) -> (r: Vec<Expression>)
        requires
            wf_graph(self@),
            node_ok(self@, node@),
        ensures
            views_of_exprs(r@) == extract_node_spec(self@, node@, max_recursion as int, 0),
    {
        self.extract_node_helper(node, max_recursion, 0)
    }

    /// Every expression obtainable from one e-node, the children drawn from
    /// one level deeper than the current depth.
    pub fn extract_node_helper(
        &self,
        node: &Node,
        max_recursion: usize,
        current_recursion: usize,
    ) -> (r: Vec<Expression>)
        requires
            wf_graph(self@),
            node_ok(self@, node@),
        ensures
            views_of_exprs(r@) == extract_node_spec(
                self@,
                node@,
                max_recursion as int,
                current_recursion as int,
            ),
        decreases fuel_of(max_recursion as int, current_recursion as int), 1int, 0int,
    {
        let ghost max = max_recursion as int;
        let ghost cur = current_recursion as int;
        let mut child_expression_lists: Vec<Vec<Expression>> = Vec::new();
        let arity = node.children.len();
        let mut j: usize = 0;
        proof {
            assert(node@.children.subrange(0, 0) =~= Seq::<int>::empty());
            assert(views_of_expr_lists(child_expression_lists@) =~= extract_child_lists(
                self@,
                node@.children.subrange(0, 0),
                max,
                cur,
            ));
        }
        while j < arity
            invariant
                wf_graph(self@),
                node_ok(self@, node@),
                max == max_recursion as int,
                cur == current_recursion as int,
                arity == node.children@.len(),
                arity == node@.children.len(),
                j <= arity,
                views_of_expr_lists(child_expression_lists@) == extract_child_lists(
                    self@,
                    node@.children.subrange(0, j as int),
                    max,
                    cur,
                ),
            decreases arity - j,
        {
            proof {
                assert(node@.children[j as int] == node.children@[j as int] as int);
                assert(0 <= node@.children[j as int] < self@.len());
            }
            let child_expressions: Vec<Expression> = if current_recursion < max_recursion {
                self.extract_all_helper(node.children[j], max_recursion, current_recursion + 1)
            } else {
                Vec::new()
            };
            proof {
                if cur >= max {
                    assert(views_of_exprs(child_expressions@) =~= Seq::<ExprView>::empty());
                    if cur + 1 > max {
                        assert(extract_class_spec(self@, node@.children[j as int], max, cur + 1)
                            == Seq::<ExprView>::empty());
                    }
                }
            }
            let ghost prev = child_expression_lists@;
            child_expression_lists.push(child_expressions);
            proof {
                let sub = node@.children.subrange(0, j as int + 1);
                assert(sub.drop_last() =~= node@.children.subrange(0, j as int));
                assert(sub.last() == node@.children[j as int]);
                assert(views_of_expr_lists(child_expression_lists@) =~= views_of_expr_lists(
                    prev,
                ).push(views_of_exprs(child_expressions@)));
                if cur > max {
                    assert(views_of_expr_lists(child_expression_lists@) =~= extract_child_lists(
                        self@,
                        sub,
                        max,
                        cur,
                    ));
                } else {
                    assert(views_of_expr_lists(child_expression_lists@) =~= extract_child_lists(
                        self@,
                        sub,
                        max,
                        cur,
                    ));
                }
            }
            j = j + 1;
        }
        proof {
            assert(node@.children.subrange(0, arity as int) =~= node@.children);
        }
        let child_expressions_product = cartesian_product(&child_expression_lists);
        let ghost productv = product_of(extract_child_lists(self@, node@.children, max, cur));
        let mut expressions: Vec<Expression> = Vec::new();
        let num_tuples = child_expressions_product.len();
        let mut m: usize = 0;
        proof {
            assert(views_of_expr_lists(child_expressions_product@) == productv);
            assert(num_tuples == productv.len());
        }
        while m < num_tuples
            invariant
                num_tuples == child_expressions_product@.len(),
                m <= num_tuples,
                productv == views_of_expr_lists(child_expressions_product@),
                expressions@.len() == m as int,
                forall|x: int|
                    0 <= x < m ==> #[trigger] expressions@[x]@ == (ExprView {
                        t: node@.t,
                        children: productv[x],
                    }),
                node@.t == node.t@,
            decreases num_tuples - m,
        {
            let tuple = child_expressions_product[m].clone();
            let e = Expression { t: node.t.clone(), children: tuple };
            proof {
                lemma_views_of_exprs(e.children@);
                lemma_views_of_exprs(child_expressions_product@[m as int]@);
                assert(views_of_exprs(e.children@) =~= views_of_exprs(
                    child_expressions_product@[m as int]@,
                ));
                assert(e@.children =~= productv[m as int]);
                assert(e@ =~= (ExprView { t: node@.t, children: productv[m as int] }));
            }
            let ghost preve = expressions@;
            expressions.push(e);
            proof {
                lemma_views_of_exprs(expressions@);
                lemma_views_of_exprs(preve);
            }
            m = m + 1;
        }
        proof {
            lemma_views_of_exprs(expressions@);
            let target = productv.map_values(|t: Seq<ExprView>| ExprView { t: node@.t, children: t });
            assert(target.len() == productv.len());
            assert forall|x: int| 0 <= x < num_tuples implies views_of_exprs(expressions@)[x]
                == target[x] by {
                assert(expressions@[x]@ == (ExprView { t: node@.t, children: productv[x] }));
                assert(target[x] == (ExprView { t: node@.t, children: productv[x] }));
            }
            assert(views_of_exprs(expressions@) =~= target);
        }
        expressions
    }

    /// Every expression obtainable from a class within the recursion budget,
    /// starting at depth 0.
    pub fn extract_all(&self, class_index: usize, max_recursion: usize) -> (r: Vec<Expression>)
        requires
            wf_graph(self@),
            class_index < self@.len(),
        ensures
            views_of_exprs(r@) == extract_class_spec(self@, class_index as int, max_recursion as int, 0),
    {
        self.extract_all_helper(class_index, max_recursion, 0)
    }

    /// Every expression obtainable from a class at the current depth: none
    /// beyond the budget, otherwise those of each e-node of the class's
    /// root, in node order.
    pub fn extract_all_helper(
        &self,
        class_index: usize,
        max_recursion: usize,
        current_recursion: usize,
    ) -> (r: Vec<Expression>)
        requires
            wf_graph(self@),
            class_index < self@.len(),
        ensures
            views_of_exprs(r@) == extract_class_spec(
                self@,
                class_index as int,
                max_recursion as int,
                current_recursion as int,
            ),
        decreases fuel_of(max_recursion as int, current_recursion as int), 3int, 0int,
    {
        let ghost max = max_recursion as int;
        let ghost cur = current_recursion as int;
        if current_recursion > max_recursion {
            let r: Vec<Expression> = Vec::new();
            proof {
                assert(views_of_exprs(r@) =~= Seq::<ExprView>::empty());
            }
            return r;
        }
        let class = self.get_representative_class(class_index);
        let ghost root = root_of(self@, class_index as int);
        proof {
            lemma_root_of(self@, class_index as int);
            assert(wf_class(self@, self@[root], root));
        }
        let mut expressions: Vec<Expression> = Vec::new();
        let num_nodes = class.children.len();
        let mut k: usize = 0;
        proof {
            assert(class@.children.subrange(0, 0) =~= Seq::<NodeView>::empty());
            assert(views_of_exprs(expressions@) =~= Seq::<ExprView>::empty());
        }
        while k < num_nodes
            invariant
                wf_graph(self@),
                class_index < self@.len(),
                max == max_recursion as int,
                cur == current_recursion as int,
                cur <= max,
                root == root_of(self@, class_index as int),
                class@ == self@[root],
                0 <= root < self@.len(),
                num_nodes == class.children@.len(),
                num_nodes == class@.children.len(),
                k <= num_nodes,
                views_of_exprs(expressions@) == extract_nodes_spec(
                    self@,
                    class@.children.subrange(0, k as int),
                    max,
                    cur,
                ),
            decreases num_nodes - k,
        {
            let node = &class.children[k];
            proof {
                assert(wf_class(self@, self@[root], root));
                assert(node@ == class@.children[k as int]);
                assert(node_ok(self@, node@));
            }
            let mut node_exprs = self.extract_node_helper(node, max_recursion, current_recursion);
            let ghost nodev = node_exprs@;
            let ghost preve = expressions@;
            expressions.append(&mut node_exprs);
            proof {
                let sub = class@.children.subrange(0, k as int + 1);
                assert(sub.drop_last() =~= class@.children.subrange(0, k as int));
                assert(sub.last() == class@.children[k as int]);
                lemma_views_of_exprs_append(preve, nodev);
                assert(expressions@ == preve + nodev);
                assert(views_of_exprs(expressions@) == views_of_exprs(preve) + views_of_exprs(
                    nodev,
                ));
            }
            k = k + 1;
        }
        proof {
            assert(class@.children.subrange(0, num_nodes as int) =~= class@.children);
        }
        expressions
    }
}


/// The views of a sequence of assignments, in order.
pub open spec fn subst_views(s: Seq<Assignment>) -> Seq<Subst> {
    s.map_values(|a: Assignment| a@)
}

/// The views of a sequence of assignment lists, in order.
pub open spec fn subst_list_views(s: Seq<Vec<Assignment>>) -> Seq<Seq<Subst>> {
    s.map_values(|v: Vec<Assignment>| subst_views(v@))
}

/// Every assignment of a list of assignment lists is well formed.
pub open spec fn all_wf_lists(s: Seq<Vec<Assignment>>) -> bool {
    forall|i: int, j: int|
        0 <= i < s.len() && 0 <= j < s[i]@.len() ==> (#[trigger] s[i]@[j]).wf()
}

/// Folds a sequence of substitutions left to right: the fold fails when two
/// of them bind a shared name to different expressions, and otherwise is
/// their union.
pub open spec fn merge_maps(ms: Seq<Subst>) -> Option<Subst>
    decreases ms.len(),
{
    if ms.len() == 0 {
        Some(Map::empty())
    } else {
        match merge_maps(ms.drop_last()) {
            None => None,
            Some(m) => if compatible(m, ms.last()) {
                Some(m.union_prefer_right(ms.last()))
            } else {
                None
            },
        }
    }
}

/// The successful merges among a sequence of substitution tuples, in order.
pub open spec fn merge_products(tuples: Seq<Seq<Subst>>) -> Seq<Subst>
    decreases tuples.len(),
{
    if tuples.len() == 0 {
        Seq::empty()
    } else {
        merge_products(tuples.drop_last()) + (match merge_maps(tuples.last()) {
            Some(m) => seq![m],
            None => Seq::<Subst>::empty(),
        })
    }
}

/// The substitutions by which a pattern matches a class: those of every
/// e-node of the class's root, in node order.
pub open spec fn search_class_spec(g: Seq<EClassView>, c: int, p: ExprView, max: int) -> Seq<Subst>
    decreases p, 3int, 0int,
{
    search_nodes_spec(g, g[root_of(g, c)].children, p, max)
}

/// The substitutions by which a pattern matches each e-node of a list,
/// concatenated in order.
pub open spec fn search_nodes_spec(
    g: Seq<EClassView>,
    nodes: Seq<NodeView>,
    p: ExprView,
    max: int,
) -> Seq<Subst>
    decreases p, 2int, nodes.len(),
{
    if nodes.len() == 0 {
        Seq::empty()
    } else {
        search_nodes_spec(g, nodes.drop_last(), p, max) + search_node_spec(
            g,
            nodes.last(),
            p,
            max,
        )
    }
}

/// The substitutions by which a pattern matches one e-node.  A meta-variable
/// binds each expression the e-node extracts to within the budget; any other
/// pattern must carry the e-node's tag and arity, and each consistent merge
/// of child substitutions, in cartesian-product order, is one result.
pub open spec fn search_node_spec(g: Seq<EClassView>, n: NodeView, p: ExprView, max: int) -> Seq<
    Subst,
>
    decreases p, 1int, 0int,
{
    match p.t {
        TagView::MetaVar(x) => extract_node_spec(g, n, max, 0).map_values(
            |e: ExprView| Map::<Seq<char>, ExprView>::empty().insert(x, e),
        ),
        _ => {
            if p.t == n.t && p.children.len() == n.children.len() {
                merge_products(product_of(search_child_lists(g, n.children, p.children, max)))
            } else {
                Seq::empty()
            }
        },
    }
}

/// The per-position lists of child substitutions of an e-node against the
/// pattern's children.
pub open spec fn search_child_lists(
    g: Seq<EClassView>,
    ids: Seq<int>,
    ps: Seq<ExprView>,
    max: int,
) -> Seq<Seq<Subst>>
    decreases ps, 0int, ids.len(),
{
    if ids.len() == 0 || ps.len() == 0 {
        Seq::empty()
    } else {
        search_child_lists(g, ids.drop_last(), ps.drop_last(), max) + seq![
            search_class_spec(g, ids.last(), ps.last(), max),
        ]
    }
}

/// The matches of a pattern over the first `n` classes of the graph: every
/// substitution of each class in identifier order, paired with its class.
pub open spec fn search_upto_spec(g: Seq<EClassView>, p: ExprView, max: int, n: int) -> Seq<
    (Subst, int),
>
    decreases n,
{
    if n <= 0 {
        Seq::empty()
    } else {
        search_upto_spec(g, p, max, n - 1) + search_class_spec(g, n - 1, p, max).map_values(
            |m: Subst| (m, n - 1),
        )
    }
}

/// The matches of a pattern over the whole graph.
pub open spec fn search_spec(g: Seq<EClassView>, p: ExprView, max: int) -> Seq<(Subst, int)> {
    search_upto_spec(g, p, max, g.len() as int)
}

/// The views of search results, in order.
pub open spec fn found_views(s: Seq<(Assignment, usize)>) -> Seq<(Subst, int)> {
    s.map_values(|pr: (Assignment, usize)| (pr.0@, pr.1 as int))
}

/// Builds every tuple made of one assignment of each list, in lexicographic
/// order by position with the first position varying slowest.
fn cartesian_product_assignments(lists: &Vec<Vec<Assignment>>) -> (r: Vec<Vec<Assignment>>)
    requires
        all_wf_lists(lists@),
    ensures
        subst_list_views(r@) == product_of(subst_list_views(lists@)),
        all_wf_lists(r@),
{
    let ghost lv = subst_list_views(lists@);
    let mut result: Vec<Vec<Assignment>> = Vec::new();
    result.push(Vec::new());
    proof {
        assert(subst_views(Seq::<Assignment>::empty()) =~= Seq::<Subst>::empty());
        assert(subst_list_views(result@) =~= seq![Seq::<Subst>::empty()]);
        assert(lv.subrange(lists@.len() as int, lists@.len() as int) =~= Seq::<Seq<Subst>>::empty());
    }
    let mut i: usize = lists.len();
    while i > 0
        invariant
            all_wf_lists(lists@),
            lv == subst_list_views(lists@),
            lv.len() == lists@.len(),
            i <= lists@.len(),
            subst_list_views(result@) == product_of(lv.subrange(i as int, lv.len() as int)),
            all_wf_lists(result@),
        decreases i,
    {
        i = i - 1;
        let items = &lists[i];
        let ghost itemsv = subst_views(items@);
        let ghost restv = product_of(lv.subrange(i as int + 1, lv.len() as int));
        let mut new_result: Vec<Vec<Assignment>> = Vec::new();
        let num_items = items.len();
        let mut k: usize = 0;
        while k < num_items
            invariant
                all_wf_lists(lists@),
                itemsv == subst_views(items@),
                *items == lists@[i as int],
                0 <= i < lists@.len(),
                itemsv.len() == items@.len(),
                num_items == items@.len(),
                k <= num_items,
                restv == subst_list_views(result@),
                all_wf_lists(result@),
                all_wf_lists(new_result@),
                subst_list_views(new_result@) == product_append(
                    itemsv.subrange(0, k as int),
                    restv,
                ),
            decreases num_items - k,
        {
            let num_rest = result.len();
            let mut m: usize = 0;
            while m < num_rest
                invariant
                    all_wf_lists(lists@),
                    itemsv == subst_views(items@),
                    *items == lists@[i as int],
                    0 <= i < lists@.len(),
                    itemsv.len() == items@.len(),
                    num_items == items@.len(),
                    k < num_items,
                    num_rest == result@.len(),
                    m <= num_rest,
                    restv == subst_list_views(result@),
                    all_wf_lists(result@),
                    all_wf_lists(new_result@),
                    subst_list_views(new_result@) == product_append(
                        itemsv.subrange(0, k as int),
                        restv,
                    ) + restv.map_values(|p: Seq<Subst>| seq![itemsv[k as int]] + p).subrange(
                        0,
                        m as int,
                    ),
                decreases num_rest - m,
            {
                let mut tuple: Vec<Assignment> = Vec::new();
                tuple.push(items[k].clone());
                let p = &result[m];
                let num_p = p.len();
                let mut q: usize = 0;
                proof {
                    assert(items@[k as int].wf());
                }
                while q < num_p
                    invariant
                        all_wf_lists(result@),
                        *p == result@[m as int],
                        0 <= m < result@.len(),
                        num_p == p@.len(),
                        q <= num_p,
                        tuple@.len() == q + 1,
                        tuple@[0]@ == items@[k as int]@,
                        k < items@.len(),
                        forall|j: int| 0 <= j < q ==> tuple@[j + 1]@ == p@[j]@,
                        forall|j: int| 0 <= j < tuple@.len() ==> (#[trigger] tuple@[j]).wf(),
                    decreases num_p - q,
                {
                    proof {
                        assert(p@[q as int].wf());
                    }
                    tuple.push(p[q].clone());
                    q = q + 1;
                }
                proof {
                    assert(subst_views(tuple@) =~= seq![itemsv[k as int]] + subst_views(p@));
                    assert(subst_views(p@) == restv[m as int]);
                }
                let ghost tuplev = tuple@;
                let ghost prev = new_result@;
                new_result.push(tuple);
                proof {
                    assert forall|a: int, b: int|
                        0 <= a < new_result@.len() && 0 <= b < new_result@[a]@.len() implies (
                    #[trigger] new_result@[a]@[b]).wf() by {
                        if a < prev.len() {
                            assert(new_result@[a] == prev[a]);
                        } else {
                            assert(new_result@[a]@ == tuplev);
                        }
                    }
                    assert(subst_list_views(new_result@) =~= subst_list_views(prev).push(
                        seq![itemsv[k as int]] + restv[m as int],
                    ));
                    assert(subst_list_views(new_result@) =~= product_append(
                        itemsv.subrange(0, k as int),
                        restv,
                    ) + restv.map_values(|p2: Seq<Subst>| seq![itemsv[k as int]] + p2).subrange(
                        0,
                        m as int + 1,
                    ));
                }
                m = m + 1;
            }
            proof {
                let full = restv.map_values(|p2: Seq<Subst>| seq![itemsv[k as int]] + p2);
                assert(full.subrange(0, restv.len() as int) =~= full);
                assert(itemsv.subrange(0, k as int + 1).drop_last() =~= itemsv.subrange(
                    0,
                    k as int,
                ));
                assert(itemsv.subrange(0, k as int + 1).last() == itemsv[k as int]);
            }
            k = k + 1;
        }
        result = new_result;
        proof {
            assert(itemsv.subrange(0, itemsv.len() as int) =~= itemsv);
            let sub = lv.subrange(i as int, lv.len() as int);
            assert(sub[0] == itemsv);
            assert(sub.drop_first() =~= lv.subrange(i as int + 1, lv.len() as int));
            assert(subst_list_views(result@) == product_of(sub));
        }
    }
    proof {
        assert(lv.subrange(0, lv.len() as int) =~= lv);
    }
    result
}

impl EGraph {
    /// Every substitution by which the pattern matches the given class,
    /// through the class's root, in node order.
    pub fn search_in_class(
        &self,
        class_index: usize,
        pattern: &Expression,
        max_recursion: usize,
    ) -> (r: Vec<Assignment>)
        requires
            wf_graph(self@),
            class_index < self@.len(),
        ensures
            subst_views(r@) == search_class_spec(
                self@,
                class_index as int,
                pattern@,
                max_recursion as int,
            ),
            forall|i: int| 0 <= i < r@.len() ==> (#[trigger] r@[i]).wf(),
        decreases pattern@, 3int, 0int,
    {
        let ghost max = max_recursion as int;
        let ghost pv = pattern@;
        let class = self.get_representative_class(class_index);
        let ghost root = root_of(self@, class_index as int);
        proof {
            lemma_root_of(self@, class_index as int);
            assert(wf_class(self@, self@[root], root));
        }
        let mut needles: Vec<Assignment> = Vec::new();
        let num_nodes = class.children.len();
        let mut k: usize = 0;
        proof {
            assert(class@.children.subrange(0, 0) =~= Seq::<NodeView>::empty());
            assert(subst_views(needles@) =~= Seq::<Subst>::empty());
        }
        while k < num_nodes
            invariant
                wf_graph(self@),
                class_index < self@.len(),
                max == max_recursion as int,
                pv == pattern@,
                root == root_of(self@, class_index as int),
                class@ == self@[root],
                0 <= root < self@.len(),
                num_nodes == class.children@.len(),
                num_nodes == class@.children.len(),
                k <= num_nodes,
                subst_views(needles@) == search_nodes_spec(
                    self@,
                    class@.children.subrange(0, k as int),
                    pv,
                    max,
                ),
                forall|i: int| 0 <= i < needles@.len() ==> (#[trigger] needles@[i]).wf(),
            decreases num_nodes - k,
        {
            let node = &class.children[k];
            proof {
                assert(wf_class(self@, self@[root], root));
                assert(node@ == class@.children[k as int]);
                assert(node_ok(self@, node@));
            }
            match &pattern.t {
                NodeType::MetaVar(x) => {
                    let expressions = self.extract_node(node, max_recursion);
                    let ghost exprsv = views_of_exprs(expressions@);
                    let num_exprs = expressions.len();
                    let mut m: usize = 0;
                    proof {
                        lemma_views_of_exprs(expressions@);
                    }
                    while m < num_exprs
                        invariant
                            pv == pattern@,
                            pv.t == TagView::MetaVar(x@),
                            num_exprs == expressions@.len(),
                            exprsv == views_of_exprs(expressions@),
                            exprsv.len() == num_exprs,
                            forall|j: int|
                                0 <= j < num_exprs ==> exprsv[j] == expressions@[j]@,
                            m <= num_exprs,
                            subst_views(needles@) == search_nodes_spec(
                                self@,
                                class@.children.subrange(0, k as int),
                                pv,
                                max,
                            ) + exprsv.map_values(
                                |e: ExprView| Map::<Seq<char>, ExprView>::empty().insert(x@, e),
                            ).subrange(0, m as int),
                            forall|i: int| 0 <= i < needles@.len() ==> (#[trigger] needles@[i]).wf(),
                        decreases num_exprs - m,
                    {
                        let mut map = Assignment::new();
                        map.insert(x.clone(), expressions[m].clone());
                        let ghost prevn = needles@;
                        needles.push(map);
                        proof {
                            let f = exprsv.map_values(
                                |e: ExprView| Map::<Seq<char>, ExprView>::empty().insert(x@, e),
                            );
                            assert(subst_views(needles@) =~= subst_views(prevn).push(
                                Map::<Seq<char>, ExprView>::empty().insert(
                                    x@,
                                    exprsv[m as int],
                                ),
                            ));
                            assert(f.subrange(0, m as int + 1) =~= f.subrange(0, m as int).push(
                                f[m as int],
                            ));
                        }
                        m = m + 1;
                    }
                    proof {
                        let f = exprsv.map_values(
                            |e: ExprView| Map::<Seq<char>, ExprView>::empty().insert(x@, e),
                        );
                        assert(f.subrange(0, num_exprs as int) =~= f);
                        let sub = class@.children.subrange(0, k as int + 1);
                        assert(sub.drop_last() =~= class@.children.subrange(0, k as int));
                        assert(sub.last() == class@.children[k as int]);
                        assert(search_node_spec(self@, node@, pv, max) == f);
                        assert(subst_views(needles@) == search_nodes_spec(self@, sub, pv, max));
                    }
                },
                _ => {
                    proof {
                        lemma_views_of_exprs(pattern.children@);
                        assert(!(pv.t is MetaVar));
                    }
                    if pattern.t == node.t && pattern.children.len() == node.children.len() {
                        let arity = pattern.children.len();
                        let mut child_assignments_list: Vec<Vec<Assignment>> = Vec::new();
                        let mut j: usize = 0;
                        proof {
                            assert(node@.children.subrange(0, 0) =~= Seq::<int>::empty());
                            assert(pv.children.subrange(0, 0) =~= Seq::<ExprView>::empty());
                            assert(subst_list_views(child_assignments_list@)
                                =~= search_child_lists(
                                self@,
                                node@.children.subrange(0, 0),
                                pv.children.subrange(0, 0),
                                max,
                            ));
                        }
                        while j < arity
                            invariant
                                wf_graph(self@),
                                max == max_recursion as int,
                                pv == pattern@,
                                node_ok(self@, node@),
                                arity == pattern.children@.len(),
                                arity == pv.children.len(),
                                arity == node.children@.len(),
                                arity == node@.children.len(),
                                j <= arity,
                                forall|x: int|
                                    0 <= x < arity ==> pattern.children@[x]@ == pv.children[x],
                                all_wf_lists(child_assignments_list@),
                                subst_list_views(child_assignments_list@) == search_child_lists(
                                    self@,
                                    node@.children.subrange(0, j as int),
                                    pv.children.subrange(0, j as int),
                                    max,
                                ),
                            decreases arity - j,
                        {
                            proof {
                                assert(0 <= node@.children[j as int] < self@.len());
                                assert(node@.children[j as int] == node.children@[j as int] as int);
                                assert(decreases_to!(pv => pv.children[j as int]));
                            }
                            let child_assignments = self.search_in_class(
                                node.children[j],
                                &pattern.children[j],
                                max_recursion,
                            );
                            let ghost prevl = child_assignments_list@;
                            child_assignments_list.push(child_assignments);
                            proof {
                                let subn = node@.children.subrange(0, j as int + 1);
                                let subp = pv.children.subrange(0, j as int + 1);
                                assert(subn.drop_last() =~= node@.children.subrange(0, j as int));
                                assert(subp.drop_last() =~= pv.children.subrange(0, j as int));
                                assert(subn.last() == node@.children[j as int]);
                                assert(subp.last() == pv.children[j as int]);
                                assert(subst_list_views(child_assignments_list@)
                                    =~= subst_list_views(prevl).push(
                                    search_class_spec(
                                        self@,
                                        node@.children[j as int],
                                        pv.children[j as int],
                                        max,
                                    ),
                                ));
                            }
                            j = j + 1;
                        }
                        proof {
                            assert(node@.children.subrange(0, arity as int) =~= node@.children);
                            assert(pv.children.subrange(0, arity as int) =~= pv.children);
                        }
                        let child_assignments_product = cartesian_product_assignments(
                            &child_assignments_list,
                        );
                        let ghost tuplesv = product_of(
                            search_child_lists(self@, node@.children, pv.children, max),
                        );
                        let num_tuples = child_assignments_product.len();
                        let mut m: usize = 0;
                        let ghost before_node = subst_views(needles@);
                        proof {
                            assert(subst_list_views(child_assignments_product@) == tuplesv);
                            assert(num_tuples == tuplesv.len());
                        }
                        while m < num_tuples
                            invariant
                                num_tuples == child_assignments_product@.len(),
                                m <= num_tuples,
                                tuplesv == subst_list_views(child_assignments_product@),
                                all_wf_lists(child_assignments_product@),
                                subst_views(needles@) == before_node + merge_products(
                                    tuplesv.subrange(0, m as int),
                                ),
                                forall|i: int|
                                    0 <= i < needles@.len() ==> (#[trigger] needles@[i]).wf(),
                            decreases num_tuples - m,
                        {
                            let tuple = &child_assignments_product[m];
                            let ghost msv = subst_views(tuple@);
                            let num_elems = tuple.len();
                            let mut assignment = Assignment::new();
                            let mut ok = true;
                            let mut t: usize = 0;
                            proof {
                                assert(msv.subrange(0, 0) =~= Seq::<Subst>::empty());
                                assert(merge_maps(msv.subrange(0, 0)) == Some(assignment@));
                            }
                            while t < num_elems
                                invariant
                                    *tuple == child_assignments_product@[m as int],
                                    0 <= m < child_assignments_product@.len(),
                                    all_wf_lists(child_assignments_product@),
                                    msv == subst_views(tuple@),
                                    num_elems == tuple@.len(),
                                    t <= num_elems,
                                    assignment.wf(),
                                    merge_maps(msv.subrange(0, t as int)) == (if ok {
                                        Some(assignment@)
                                    } else {
                                        Option::<Subst>::None
                                    }),
                                decreases num_elems - t,
                            {
                                proof {
                                    assert(tuple@[t as int].wf());
                                    assert(msv.subrange(0, t as int + 1).drop_last()
                                        =~= msv.subrange(0, t as int));
                                    assert(msv.subrange(0, t as int + 1).last()
                                        == tuple@[t as int]@);
                                }
                                if ok {
                                    ok = assignment.merge_from(&tuple[t]);
                                }
                                t = t + 1;
                            }
                            proof {
                                assert(msv.subrange(0, num_elems as int) =~= msv);
                            }
                            let ghost prevn = needles@;
                            if ok {
                                needles.push(assignment);
                                proof {
                                    assert(subst_views(needles@) =~= subst_views(prevn).push(
                                        merge_maps(msv).unwrap(),
                                    ));
                                }
                            }
                            proof {
                                assert(tuplesv.subrange(0, m as int + 1).drop_last()
                                    =~= tuplesv.subrange(0, m as int));
                                assert(tuplesv.subrange(0, m as int + 1).last() == msv);
                                assert(subst_views(needles@) =~= before_node + merge_products(
                                    tuplesv.subrange(0, m as int + 1),
                                ));
                            }
                            m = m + 1;
                        }
                        proof {
                            assert(tuplesv.subrange(0, num_tuples as int) =~= tuplesv);
                            let sub = class@.children.subrange(0, k as int + 1);
                            assert(sub.drop_last() =~= class@.children.subrange(0, k as int));
                            assert(sub.last() == class@.children[k as int]);
                            assert(pv.t == node@.t);
                            assert(pv.children.len() == node@.children.len());
                            assert(search_node_spec(self@, node@, pv, max) == merge_products(
                                tuplesv,
                            ));
                            assert(subst_views(needles@) == search_nodes_spec(
                                self@,
                                sub,
                                pv,
                                max,
                            ));
                        }
                    } else {
                        proof {
                            let sub = class@.children.subrange(0, k as int + 1);
                            assert(sub.drop_last() =~= class@.children.subrange(0, k as int));
                            assert(sub.last() == class@.children[k as int]);
                            assert(pv.t != node@.t || pv.children.len() != node@.children.len());
                            assert(search_node_spec(self@, node@, pv, max) =~= Seq::<Subst>::empty());
                            assert(subst_views(needles@) =~= search_nodes_spec(
                                self@,
                                sub,
                                pv,
                                max,
                            ));
                        }
                    }
                },
            }
            k = k + 1;
        }
        proof {
            assert(class@.children.subrange(0, num_nodes as int) =~= class@.children);
        }
        needles
    }

    /// Every substitution by which the pattern matches some class, paired
    /// with that class's identifier, over all classes in identifier order.
    pub fn search(&self, pattern: &Expression, max_recursion: usize) -> (r: Vec<
        (Assignment, usize),
    >)
        requires
            wf_graph(self@),
        ensures
            found_views(r@) == search_spec(self@, pattern@, max_recursion as int),
            forall|i: int| 0 <= i < r@.len() ==> (#[trigger] r@[i]).0.wf(),
    {
        let ghost max = max_recursion as int;
        let ghost pv = pattern@;
        let mut needles: Vec<(Assignment, usize)> = Vec::new();
        let num_classes = self.children.len();
        let mut class_index: usize = 0;
        proof {
            assert(found_views(needles@) =~= search_upto_spec(self@, pv, max, 0));
        }
        while class_index < num_classes
            invariant
                wf_graph(self@),
                max == max_recursion as int,
                pv == pattern@,
                num_classes == self@.len(),
                class_index <= num_classes,
                found_views(needles@) == search_upto_spec(self@, pv, max, class_index as int),
                forall|i: int| 0 <= i < needles@.len() ==> (#[trigger] needles@[i]).0.wf(),
            decreases num_classes - class_index,
        {
            let found = self.search_in_class(class_index, pattern, max_recursion);
            let ghost foundv = subst_views(found@);
            let num_found = found.len();
            let mut m: usize = 0;
            while m < num_found
                invariant
                    pv == pattern@,
                    max == max_recursion as int,
                    class_index < self@.len(),
                    num_found == found@.len(),
                    foundv == subst_views(found@),
                    foundv.len() == num_found,
                    forall|i: int| 0 <= i < found@.len() ==> (#[trigger] found@[i]).wf(),
                    m <= num_found,
                    found_views(needles@) == search_upto_spec(self@, pv, max, class_index as int)
                        + foundv.map_values(|mm: Subst| (mm, class_index as int)).subrange(
                        0,
                        m as int,
                    ),
                    forall|i: int| 0 <= i < needles@.len() ==> (#[trigger] needles@[i]).0.wf(),
                decreases num_found - m,
            {
                let ghost prevn = needles@;
                needles.push((found[m].clone(), class_index));
                proof {
                    let f = foundv.map_values(|mm: Subst| (mm, class_index as int));
                    assert(found_views(needles@) =~= found_views(prevn).push(
                        (foundv[m as int], class_index as int),
                    ));
                    assert(f.subrange(0, m as int + 1) =~= f.subrange(0, m as int).push(
                        f[m as int],
                    ));
                }
                m = m + 1;
            }
            proof {
                let f = foundv.map_values(|mm: Subst| (mm, class_index as int));
                assert(f.subrange(0, num_found as int) =~= f);
                assert(found_views(needles@) == search_upto_spec(
                    self@,
                    pv,
                    max,
                    class_index as int + 1,
                ));
            }
            class_index = class_index + 1;
        }
        needles
    }
}


/// A tuple whose entry at each position is drawn from that position's list
/// lies in the cartesian product.
pub proof fn lemma_product_append_contains<A>(items: Seq<A>, rest: Seq<Seq<A>>, x: A, p: Seq<A>)
    requires
        items.contains(x),
        rest.contains(p),
    ensures
        product_append(items, rest).contains(seq![x] + p),
    decreases items.len(),
{
    let i = choose|i: int| 0 <= i < items.len() && items[i] == x;
    if i == items.len() - 1 {
        let j = choose|j: int| 0 <= j < rest.len() && rest[j] == p;
        let mapped = rest.map_values(|p2: Seq<A>| seq![items.last()] + p2);
        assert(mapped[j] == seq![x] + p);
        let full = product_append(items.drop_last(), rest) + mapped;
        assert(full[product_append(items.drop_last(), rest).len() + j] == seq![x] + p);
    } else {
        assert(items.drop_last()[i] == x);
        assert(items.drop_last().contains(x));
        lemma_product_append_contains(items.drop_last(), rest, x, p);
        let full = product_append(items.drop_last(), rest);
        let j = choose|j: int| 0 <= j < full.len() && full[j] == seq![x] + p;
        assert(product_append(items, rest)[j] == seq![x] + p);
    }
}

/// A tuple made of one member of each list lies in their cartesian product.
pub proof fn lemma_product_of_contains<A>(lists: Seq<Seq<A>>, xs: Seq<A>)
    requires
        xs.len() == lists.len(),
        forall|j: int| 0 <= j < lists.len() ==> #[trigger] lists[j].contains(xs[j]),
    ensures
        product_of(lists).contains(xs),
    decreases lists.len(),
{
    if lists.len() == 0 {
        assert(xs =~= Seq::<A>::empty());
        assert(product_of(lists)[0] == xs);
    } else {
        let rest = xs.drop_first();
        assert(forall|j: int|
            0 <= j < lists.drop_first().len() ==> lists.drop_first()[j] == lists[j + 1]
                && rest[j] == xs[j + 1]);
        lemma_product_of_contains(lists.drop_first(), rest);
        assert(lists[0].contains(xs[0]));
        lemma_product_append_contains(lists[0], product_of(lists.drop_first()), xs[0], rest);
        assert(xs =~= seq![xs[0]] + rest);
    }
}

/// What one e-node of a list extracts to, the whole list extracts to.
pub proof fn lemma_extract_nodes_contains(
    g: Seq<EClassView>,
    nodes: Seq<NodeView>,
    k: int,
    e: ExprView,
    max: int,
    cur: int,
)
    requires
        0 <= k < nodes.len(),
        extract_node_spec(g, nodes[k], max, cur).contains(e),
    ensures
        extract_nodes_spec(g, nodes, max, cur).contains(e),
    decreases nodes.len(),
{
    if k == nodes.len() - 1 {
        let part = extract_node_spec(g, nodes.last(), max, cur);
        let j = choose|j: int| 0 <= j < part.len() && part[j] == e;
        assert(extract_nodes_spec(g, nodes, max, cur)[extract_nodes_spec(
            g,
            nodes.drop_last(),
            max,
            cur,
        ).len() + j] == e);
    } else {
        assert(nodes.drop_last()[k] == nodes[k]);
        lemma_extract_nodes_contains(g, nodes.drop_last(), k, e, max, cur);
        let part = extract_nodes_spec(g, nodes.drop_last(), max, cur);
        let j = choose|j: int| 0 <= j < part.len() && part[j] == e;
        assert(extract_nodes_spec(g, nodes, max, cur)[j] == e);
    }
}

/// Bounded extraction is complete for matching expressions: a class that an
/// expression matches extracts that expression whenever the remaining budget
/// covers the expression's height.  In particular, for any expression `e`
/// and any depth bound at least `height(e)`, extraction from the class that
/// inserting `e` returns contains `e` itself.
pub proof fn lemma_extract_contains(
    g: Seq<EClassView>,
    e: ExprView,
    c: int,
    max: int,
    cur: int,
)
    requires
        wf_graph(g),
        class_matches(g, e, c),
        cur + height(e) <= max,
        0 <= cur,
    ensures
        extract_class_spec(g, c, max, cur).contains(e),
    decreases e,
{
    let k = choose|k: int|
        0 <= k < g[c].children.len() && node_matches(g, e, #[trigger] g[c].children[k]);
    let n = g[c].children[k];
    assert(wf_class(g, g[c], c));
    assert(g[c].children.len() > 0);
    assert(g[c].representative == c);
    assert(root_of(g, c) == c);
    let lists = extract_child_lists(g, n.children, max, cur);
    lemma_extract_child_lists_len(g, n.children, max, cur);
    assert forall|j: int| 0 <= j < lists.len() implies #[trigger] lists[j].contains(
        e.children[j],
    ) by {
        assert(class_matches(g, e.children[j], n.children[j]));
        if e.children.len() > 0 {
            lemma_max_child_height(e.children);
            assert(height(e.children[j]) <= max_child_height(e.children));
        }
        lemma_extract_contains(g, e.children[j], n.children[j], max, cur + 1);
        assert(lists[j] == extract_class_spec(g, n.children[j], max, cur + 1));
    }
    lemma_product_of_contains(lists, e.children);
    let product = product_of(lists);
    let idx = choose|idx: int| 0 <= idx < product.len() && product[idx] == e.children;
    let mapped = product.map_values(|t: Seq<ExprView>| ExprView { t: n.t, children: t });
    assert(mapped[idx] == (ExprView { t: n.t, children: e.children }));
    assert(e =~= (ExprView { t: n.t, children: e.children }));
    assert(extract_node_spec(g, n, max, cur).contains(e));
    lemma_extract_nodes_contains(g, g[c].children, k, e, max, cur);
}

/// The per-child extraction lists go child for child.
pub proof fn lemma_extract_child_lists_len(g: Seq<EClassView>, ids: Seq<int>, max: int, cur: int)
    ensures
        extract_child_lists(g, ids, max, cur).len() == ids.len(),
        cur <= max ==> forall|j: int|
            0 <= j < ids.len() ==> extract_child_lists(g, ids, max, cur)[j]
                == extract_class_spec(g, ids[j], max, cur + 1),
    decreases ids.len(),
{
    if ids.len() > 0 {
        lemma_extract_child_lists_len(g, ids.drop_last(), max, cur);
        assert(forall|j: int| 0 <= j < ids.len() - 1 ==> ids.drop_last()[j] == ids[j]);
    }
}


/// How a merge re-roots the graph: every class whose root was the higher
/// merged root now reaches the lower one, and every other class keeps its
/// root.
pub proof fn lemma_union_spec_roots(g: Seq<EClassView>, i: int, j: int, k: int)
    requires
        wf_graph(g),
        0 <= k < g.len(),
    ensures
        ({
            let u = EGraph::union_spec(g, i, j);
            let r1 = root_of(g, i);
            let r2 = root_of(g, j);
            let lo = if r1 < r2 {
                r1
            } else {
                r2
            };
            let hi = if r1 < r2 {
                r2
            } else {
                r1
            };
            root_of(u, k) == (if i != j && 0 <= i < g.len() && 0 <= j < g.len() && r1 != r2
                && root_of(g, k) == hi {
                lo
            } else {
                root_of(g, k)
            })
        }),
    decreases k,
{
    let u = EGraph::union_spec(g, i, j);
    let r1 = root_of(g, i);
    let r2 = root_of(g, j);
    let lo = if r1 < r2 {
        r1
    } else {
        r2
    };
    let hi = if r1 < r2 {
        r2
    } else {
        r1
    };
    assert(wf_class(g, g[k], k));
    if i == j || !(0 <= i < g.len()) || !(0 <= j < g.len()) || r1 == r2 {
        assert(u == g);
    } else {
        lemma_root_of(g, i);
        lemma_root_of(g, j);
        assert(0 <= lo < hi < g.len());
        assert(g[lo].representative == lo);
        assert(g[hi].representative == hi);
        if k == hi {
            assert(u[k].representative == lo);
            lemma_union_spec_roots(g, i, j, lo);
            assert(root_of(g, lo) == lo);
            assert(root_of(u, lo) == lo);
            assert(root_of(u, k) == lo);
            assert(root_of(g, hi) == hi);
        } else {
            assert(u[k].representative == g[k].representative);
            if g[k].representative == k {
                assert(root_of(u, k) == k);
                assert(root_of(g, k) == k);
                assert(root_of(g, k) != hi);
            } else {
                assert(0 <= g[k].representative < k);
                lemma_union_spec_roots(g, i, j, g[k].representative);
                assert(root_of(u, k) == root_of(u, g[k].representative));
                assert(root_of(g, k) == root_of(g, g[k].representative));
            }
        }
    }
}

/// Merging two in-range identifiers leaves them sharing a root: the lower
/// of their two previous roots.  This is the equality that an insertion
/// followed by a merge records, and once two identifiers share a root no
/// later merge separates them.
pub proof fn lemma_union_merges_roots(g: Seq<EClassView>, i: int, j: int)
    requires
        wf_graph(g),
        0 <= i < g.len(),
        0 <= j < g.len(),
    ensures
        ({
            let u = EGraph::union_spec(g, i, j);
            let r1 = root_of(g, i);
            let r2 = root_of(g, j);
            root_of(u, i) == root_of(u, j) && root_of(u, i) == (if r1 < r2 {
                r1
            } else {
                r2
            })
        }),
{
    lemma_union_spec_roots(g, i, j, i);
    lemma_union_spec_roots(g, i, j, j);
    lemma_root_of(g, i);
    lemma_root_of(g, j);
}

/// Membership in the representative chain of a class: the class itself, and
/// everything on the chain of its representative while the chain descends.
pub open spec fn in_chain(g: Seq<EClassView>, i: int, j: int) -> bool
    decreases i,
{
    ||| i == j
    ||| (0 <= i < g.len() && 0 <= g[i].representative < i && in_chain(g, g[i].representative, j))
}

/// Walking the representative chain of any class of a well-formed graph
/// terminates at a root, and that root is the smallest identifier on the
/// chain.
pub proof fn lemma_chain_root_smallest(g: Seq<EClassView>, i: int)
    requires
        wf_graph(g),
        0 <= i < g.len(),
    ensures
        in_chain(g, i, root_of(g, i)),
        g[root_of(g, i)].representative == root_of(g, i),
        forall|j: int| in_chain(g, i, j) ==> root_of(g, i) <= j,
    decreases i,
{
    lemma_root_of(g, i);
    assert(wf_class(g, g[i], i));
    if 0 <= g[i].representative < i {
        lemma_chain_root_smallest(g, g[i].representative);
    }
    assert forall|j: int| in_chain(g, i, j) implies root_of(g, i) <= j by {
        if j != i {
            assert(in_chain(g, g[i].representative, j));
        }
    }
}

/// Only roots hold e-nodes: in a well-formed graph a class with any e-node
/// is its own representative.
pub proof fn lemma_only_roots_hold_nodes(g: Seq<EClassView>)
    requires
        wf_graph(g),
    ensures
        forall|i: int|
            0 <= i < g.len() && (#[trigger] g[i]).children.len() > 0 ==> g[i].representative == i,
{
    assert forall|i: int|
        0 <= i < g.len() && (#[trigger] g[i]).children.len() > 0 implies g[i].representative
        == i by {
        assert(wf_class(g, g[i], i));
    }
}

/// The least matching class of an expression is unique: two identifiers
/// that each match the expression with nothing below them are equal.  With
/// the insertion contract this makes insertion idempotent: every call
/// returns the least class matching the expression in the graph it leaves
/// behind, so a second insertion of the same expression finds that match,
/// returns the same identifier, and leaves the graph and its class count
/// unchanged.
pub proof fn lemma_least_match_unique(g: Seq<EClassView>, e: ExprView, r1: int, r2: int)
    requires
        class_matches(g, e, r1),
        forall|c: int| 0 <= c < r1 ==> !class_matches(g, e, c),
        class_matches(g, e, r2),
        forall|c: int| 0 <= c < r2 ==> !class_matches(g, e, c),
    ensures
        r1 == r2,
{
}

/// No e-node of the graph names the given class as a child.
pub open spec fn no_node_refs(g: Seq<EClassView>, h: int) -> bool {
    forall|c: int, k: int, x: int|
        0 <= c < g.len() && 0 <= k < g[c].children.len() && 0 <= x < g[c].children[k].children.len()
            ==> (#[trigger] g[c].children[k].children[x]) != h
}

/// The result of merging the roots `lo < hi`: nodes of `hi` moved to `lo`,
/// `hi` redirected and emptied, everything else unchanged.
pub open spec fn union_shape(g: Seq<EClassView>, g2: Seq<EClassView>, lo: int, hi: int) -> bool {
    &&& g2.len() == g.len()
    &&& 0 <= lo < hi < g.len()
    &&& forall|i: int| 0 <= i < g.len() && i != lo && i != hi ==> g2[i] == #[trigger] g[i]
    &&& g2[hi].children.len() == 0
    &&& g2[lo].children == g[lo].children + g[hi].children
}

/// When no e-node names either merged root, merging changes matching in one
/// way only: the lower root also matches whatever the higher matched, the
/// higher matches nothing, and every other class matches as before.
pub proof fn lemma_union_matches(
    g: Seq<EClassView>,
    g2: Seq<EClassView>,
    lo: int,
    hi: int,
    e: ExprView,
    c: int,
)
    requires
        wf_graph(g),
        union_shape(g, g2, lo, hi),
        no_node_refs(g, lo),
        no_node_refs(g, hi),
        0 <= c < g.len(),
    ensures
        c != lo && c != hi ==> class_matches(g2, e, c) == class_matches(g, e, c),
        c == lo ==> class_matches(g2, e, lo) == (class_matches(g, e, lo) || class_matches(
            g,
            e,
            hi,
        )),
        c == hi ==> !class_matches(g2, e, hi),
    decreases e,
{
    let lo_len = g[lo].children.len() as int;
    if c == hi {
        assert(g2[hi].children.len() == 0);
    } else {
        let old_nodes = if c == lo {
            g[lo].children + g[hi].children
        } else {
            g[c].children
        };
        assert(g2[c].children == old_nodes);
        assert forall|k: int|
            0 <= k < old_nodes.len() implies node_matches(g2, e, #[trigger] old_nodes[k])
            == node_matches(g, e, old_nodes[k]) by {
            let n = old_nodes[k];
            if c == lo {
                if k < lo_len {
                    assert(wf_class(g, g[lo], lo));
                    assert(n == g[lo].children[k]);
                    assert(node_ok(g, n));
                } else {
                    assert(wf_class(g, g[hi], hi));
                    assert(n == g[hi].children[k - lo_len]);
                    assert(node_ok(g, n));
                }
            } else {
                assert(wf_class(g, g[c], c));
                assert(n == g[c].children[k]);
                assert(node_ok(g, n));
            }
            if e.t == n.t && e.children.len() == n.children.len() {
                assert forall|j: int|
                    0 <= j < e.children.len() implies class_matches(g2, #[trigger] e.children[j], n.children[j])
                    == class_matches(g, e.children[j], n.children[j]) by {
                    let cc = n.children[j];
                    assert(0 <= cc < g.len());
                    if c == lo {
                        if k < lo_len {
                            assert(g[lo].children[k].children[j] != hi);
                            assert(g[lo].children[k].children[j] != lo);
                        } else {
                            assert(g[hi].children[k - lo_len].children[j] != hi);
                            assert(g[hi].children[k - lo_len].children[j] != lo);
                        }
                    } else {
                        assert(g[c].children[k].children[j] != hi);
                        assert(g[c].children[k].children[j] != lo);
                    }
                    assert(cc != hi && cc != lo);
                    lemma_union_matches(g, g2, lo, hi, e.children[j], cc);
                }
            }
        }
        if class_matches(g, e, c) || (c == lo && class_matches(g, e, hi)) {
            if c == lo {
                if class_matches(g, e, lo) {
                    let k = choose|k: int|
                        0 <= k < g[lo].children.len() && node_matches(
                            g,
                            e,
                            #[trigger] g[lo].children[k],
                        );
                    assert(old_nodes[k] == g[lo].children[k]);
                    assert(node_matches(g2, e, g2[lo].children[k]));
                } else {
                    let k = choose|k: int|
                        0 <= k < g[hi].children.len() && node_matches(
                            g,
                            e,
                            #[trigger] g[hi].children[k],
                        );
                    assert(old_nodes[lo_len + k] == g[hi].children[k]);
                    assert(node_matches(g2, e, g2[lo].children[lo_len + k]));
                }
            } else {
                let k = choose|k: int|
                    0 <= k < g[c].children.len() && node_matches(g, e, #[trigger] g[c].children[k]);
                assert(node_matches(g2, e, g2[c].children[k]));
            }
            assert(class_matches(g2, e, c));
        }
        if class_matches(g2, e, c) {
            let k = choose|k: int|
                0 <= k < g2[c].children.len() && node_matches(g2, e, #[trigger] g2[c].children[k]);
            assert(node_matches(g, e, old_nodes[k]));
            if c == lo {
                if k < lo_len {
                    assert(g[lo].children[k] == old_nodes[k]);
                    assert(class_matches(g, e, lo));
                } else {
                    assert(g[hi].children[k - lo_len] == old_nodes[k]);
                    assert(class_matches(g, e, hi));
                }
            } else {
                assert(class_matches(g, e, c));
            }
        }
    }
}

/// After merging two roots that no e-node names, an expression whose least
/// match was either of them matches the lower root, and nothing below it: a
/// subsequent insertion returns the lower identifier.  The hypothesis
/// covers, in particular, leaf classes and a class that was just created,
/// as when the rewrite driver merges a freshly inserted class.
pub proof fn lemma_union_add_returns_lower(
    g: Seq<EClassView>,
    g2: Seq<EClassView>,
    lo: int,
    hi: int,
    e: ExprView,
    r: int,
)
    requires
        wf_graph(g),
        union_shape(g, g2, lo, hi),
        no_node_refs(g, lo),
        no_node_refs(g, hi),
        r == lo || r == hi,
        class_matches(g, e, r),
        forall|c: int| 0 <= c < r ==> !class_matches(g, e, c),
    ensures
        class_matches(g2, e, lo),
        forall|c: int| 0 <= c < lo ==> !class_matches(g2, e, c),
{
    lemma_union_matches(g, g2, lo, hi, e, lo);
    assert forall|c: int| 0 <= c < lo implies !class_matches(g2, e, c) by {
        lemma_union_matches(g, g2, lo, hi, e, c);
    }
}


/// The rules' left- and right-hand sides, in order.
pub open spec fn rule_views(rs: Seq<crate::rules::Rule>) -> Seq<(ExprView, ExprView)> {
    rs.map_values(|r: crate::rules::Rule| (r.lhs@, r.rhs@))
}

/// The views of collected matches: right-hand side, substitution, class.
pub open spec fn triple_views(s: Seq<(Expression, Assignment, usize)>) -> Seq<
    (ExprView, Subst, int),
> {
    s.map_values(|t: (Expression, Assignment, usize)| (t.0@, t.1@, t.2 as int))
}

/// Every rule's matches over a fixed graph, each tagged with its rule's
/// right-hand side, rules in order.
pub open spec fn collect_matches_spec(
    g0: Seq<EClassView>,
    rules: Seq<(ExprView, ExprView)>,
    depth: int,
) -> Seq<(ExprView, Subst, int)>
    decreases rules.len(),
{
    if rules.len() == 0 {
        Seq::empty()
    } else {
        collect_matches_spec(g0, rules.drop_last(), depth) + search_spec(
            g0,
            rules.last().0,
            depth,
        ).map_values(|pr: (Subst, int)| (rules.last().1, pr.0, pr.1))
    }
}

/// One constant-folding step: the bound expression's value, if it has one,
/// is inserted and merged with the matched class; a negative value whose
/// magnitude is representable is also inserted as a negated positive.
pub open spec fn fold_step_spec(g: Seq<EClassView>, m: Subst, c: int) -> Seq<EClassView> {
    if m.dom().contains(seq!['a']) && eval(m[seq!['a']]) is Some {
        let v = eval(m[seq!['a']]).unwrap();
        let added = add_spec(g, cnst(v));
        let g2 = EGraph::union_spec(added.0, added.1, c);
        if v < 0 && in_i64(-v) {
            let added2 = add_spec(g2, unary(TagView::Neg, cnst(-v)));
            EGraph::union_spec(added2.0, added2.1, c)
        } else {
            g2
        }
    } else {
        g
    }
}

/// The folding pass applied to each found binding, in order.
pub open spec fn apply_folds_spec(g: Seq<EClassView>, folds: Seq<(Subst, int)>) -> Seq<EClassView>
    decreases folds.len(),
{
    if folds.len() == 0 {
        g
    } else {
        fold_step_spec(apply_folds_spec(g, folds.drop_last()), folds.last().0, folds.last().1)
    }
}

/// One rewrite application: the instantiated right-hand side, if ground, is
/// inserted and merged with the class where its match was found.
pub open spec fn match_step_spec(g: Seq<EClassView>, rhs: ExprView, m: Subst, c: int) -> Seq<
    EClassView,
> {
    let inst = apply_subst(rhs, m);
    if ground(inst) {
        let added = add_spec(g, inst);
        EGraph::union_spec(added.0, added.1, c)
    } else {
        g
    }
}

/// The collected rewrite applications, in order.
pub open spec fn apply_matches_spec(
    g: Seq<EClassView>,
    items: Seq<(ExprView, Subst, int)>,
) -> Seq<EClassView>
    decreases items.len(),
{
    if items.len() == 0 {
        g
    } else {
        match_step_spec(
            apply_matches_spec(g, items.drop_last()),
            items.last().0,
            items.last().1,
            items.last().2,
        )
    }
}

/// One saturation iteration over a snapshot of the graph: all matches are
/// collected from the snapshot before anything is applied, the folding
/// pass runs over the snapshot's bare-meta-variable search, and then every
/// collected instance is applied.
pub open spec fn iteration_spec(
    g0: Seq<EClassView>,
    rules: Seq<(ExprView, ExprView)>,
    rule_depth: int,
    fold_depth: int,
) -> Seq<EClassView> {
    apply_matches_spec(
        apply_folds_spec(g0, search_spec(g0, mvar('a'), fold_depth)),
        collect_matches_spec(g0, rules, rule_depth),
    )
}

impl Clone for EGraph {
    /// A snapshot of the graph: same classes, same e-nodes.
    fn clone(&self) -> (r: Self)
        ensures
            r@ == self@,
    {
        let n = self.children.len();
        let mut children: Vec<EClass> = Vec::new();
        let mut i: usize = 0;
        while i < n
            invariant
                n == self.children@.len(),
                i <= n,
                children@.len() == i as int,
                forall|j: int| 0 <= j < i ==> children@[j]@ == self.children@[j]@,
            decreases n - i,
        {
            children.push(self.children[i].clone());
            i = i + 1;
        }
        let r = EGraph { children };
        proof {
            assert(r@ =~= self@);
        }
        r
    }
}

impl Expression {
    /// Whether the expression is ground: free of meta-variables throughout.
    pub fn is_ground(&self) -> (r: bool)
        ensures
            r == ground(self@),
        decreases *self,
    {
        proof {
            lemma_views_of_exprs(self.children@);
        }
        if let NodeType::MetaVar(_) = &self.t {
            return false;
        }
        let n = self.children.len();
        let mut i: usize = 0;
        while i < n
            invariant
                n == self.children@.len(),
                !(self@.t is MetaVar),
                forall|x: int| 0 <= x < n ==> self.children@[x]@ == self@.children[x],
                n == self@.children.len(),
                i <= n,
                forall|j: int| 0 <= j < i ==> ground(#[trigger] self@.children[j]),
            decreases n - i,
        {
            if !self.children[i].is_ground() {
                proof {
                    assert(!ground(self@.children[i as int]));
                }
                return false;
            }
            i = i + 1;
        }
        proof {
            assert(ground(self@));
        }
        true
    }
}

impl EGraph {
    /// One saturation iteration, as the rewrite driver runs it: every
    /// rule's matches are collected from a snapshot of the graph, the
    /// folding pass runs for every expression a bare-meta-variable search
    /// of the snapshot finds, and then every collected right-hand-side
    /// instance is inserted and merged with the class where its match was
    /// found.  The resulting graph is exactly `iteration_spec` of the
    /// starting graph.
    pub fn apply_rules_iteration(
        &mut self,
        rules: &Vec<crate::rules::Rule>,
        rule_depth: usize,
        fold_depth: usize,
    )
        requires
            wf_graph(old(self)@),
        ensures
            wf_graph(final(self)@),
            old(self)@.len() <= final(self)@.len(),
            final(self)@ == iteration_spec(
                old(self)@,
                rule_views(rules@),
                rule_depth as int,
                fold_depth as int,
            ),
    {
        let ghost g0 = self@;
        let ghost rv = rule_views(rules@);
        let snapshot = self.clone();
        let mut matches: Vec<(Expression, Assignment, usize)> = Vec::new();
        let num_rules = rules.len();
        let mut ri: usize = 0;
        proof {
            assert(rv.subrange(0, 0) =~= Seq::<(ExprView, ExprView)>::empty());
            assert(triple_views(matches@) =~= collect_matches_spec(
                g0,
                rv.subrange(0, 0),
                rule_depth as int,
            ));
        }
        while ri < num_rules
            invariant
                self@ == g0,
                snapshot@ == g0,
                wf_graph(g0),
                rv == rule_views(rules@),
                num_rules == rules@.len(),
                num_rules == rv.len(),
                ri <= num_rules,
                triple_views(matches@) == collect_matches_spec(
                    g0,
                    rv.subrange(0, ri as int),
                    rule_depth as int,
                ),
                forall|i: int| 0 <= i < matches@.len() ==> (#[trigger] matches@[i]).1.wf(),
            decreases num_rules - ri,
        {
            let found = snapshot.search(&rules[ri].lhs, rule_depth);
            let ghost foundv = found_views(found@);
            let ghost mapped = foundv.map_values(
                |pr: (Subst, int)| (rv[ri as int].1, pr.0, pr.1),
            );
            let ghost before_rule = triple_views(matches@);
            let num_found = found.len();
            let mut fi: usize = 0;
            proof {
                assert(rv[ri as int] == (rules@[ri as int].lhs@, rules@[ri as int].rhs@));
                assert(foundv == search_spec(g0, rv[ri as int].0, rule_depth as int));
                assert(mapped.subrange(0, 0) =~= Seq::<(ExprView, Subst, int)>::empty());
            }
            while fi < num_found
                invariant
                    rv == rule_views(rules@),
                    ri < rules@.len(),
                    ri < rv.len(),
                    num_found == found@.len(),
                    foundv == found_views(found@),
                    foundv.len() == num_found,
                    mapped == foundv.map_values(
                        |pr: (Subst, int)| (rv[ri as int].1, pr.0, pr.1),
                    ),
                    fi <= num_found,
                    forall|i: int| 0 <= i < found@.len() ==> (#[trigger] found@[i]).0.wf(),
                    triple_views(matches@) == before_rule + mapped.subrange(0, fi as int),
                    forall|i: int| 0 <= i < matches@.len() ==> (#[trigger] matches@[i]).1.wf(),
                decreases num_found - fi,
            {
                let ghost prevm = matches@;
                matches.push((rules[ri].rhs.clone(), found[fi].0.clone(), found[fi].1));
                proof {
                    assert(foundv[fi as int] == (found@[fi as int].0@, found@[fi as int].1 as int));
                    assert(triple_views(matches@) =~= triple_views(prevm).push(
                        (rv[ri as int].1, foundv[fi as int].0, foundv[fi as int].1),
                    ));
                    assert(mapped.subrange(0, fi as int + 1) =~= mapped.subrange(
                        0,
                        fi as int,
                    ).push(mapped[fi as int]));
                }
                fi = fi + 1;
            }
            proof {
                assert(mapped.subrange(0, num_found as int) =~= mapped);
                assert(rv.subrange(0, ri as int + 1).drop_last() =~= rv.subrange(0, ri as int));
                assert(rv.subrange(0, ri as int + 1).last() == rv[ri as int]);
                assert(triple_views(matches@) == collect_matches_spec(
                    g0,
                    rv.subrange(0, ri as int + 1),
                    rule_depth as int,
                ));
            }
            ri = ri + 1;
        }
        proof {
            assert(rv.subrange(0, num_rules as int) =~= rv);
        }
        let fold_pattern = Expression::meta_variable("a");
        proof {
            reveal_strlit("a");
            assert("a"@ =~= seq!['a']);
            assert(fold_pattern@ =~= mvar('a'));
        }
        let folds = snapshot.search(&fold_pattern, fold_depth);
        let ghost foldsv = found_views(folds@);
        let num_folds = folds.len();
        let mut gi: usize = 0;
        proof {
            assert(foldsv == search_spec(g0, mvar('a'), fold_depth as int));
            assert(foldsv.subrange(0, 0) =~= Seq::<(Subst, int)>::empty());
            assert(self@ == apply_folds_spec(g0, foldsv.subrange(0, 0)));
        }
        while gi < num_folds
            invariant
                wf_graph(self@),
                g0.len() <= self@.len(),
                num_folds == folds@.len(),
                foldsv == found_views(folds@),
                foldsv.len() == num_folds,
                gi <= num_folds,
                self@ == apply_folds_spec(g0, foldsv.subrange(0, gi as int)),
                forall|i: int| 0 <= i < folds@.len() ==> (#[trigger] folds@[i]).0.wf(),
            decreases num_folds - gi,
        {
            let ghost g_cur = self@;
            let ghost m = foldsv[gi as int].0;
            let ghost c = foldsv[gi as int].1;
            proof {
                reveal_strlit("a");
                assert("a"@ =~= seq!['a']);
                assert(foldsv[gi as int] == (folds@[gi as int].0@, folds@[gi as int].1 as int));
                assert(foldsv.subrange(0, gi as int + 1).drop_last() =~= foldsv.subrange(
                    0,
                    gi as int,
                ));
                assert(foldsv.subrange(0, gi as int + 1).last() == foldsv[gi as int]);
            }
            let bound = folds[gi].0.get("a");
            match bound {
                None => {
                    proof {
                        assert(!m.dom().contains(seq!['a']));
                        assert(self@ == fold_step_spec(g_cur, m, c));
                    }
                },
                Some(expression) => {
                    proof {
                        assert(m.dom().contains(seq!['a']));
                        assert(expression@ == m[seq!['a']]);
                    }
                    match expression.const_eval() {
                        None => {
                            proof {
                                assert(eval(m[seq!['a']]) is None);
                                assert(self@ == fold_step_spec(g_cur, m, c));
                            }
                        },
                        Some(const_value) => {
                            proof {
                                assert(eval(m[seq!['a']]) == Some(const_value as int));
                            }
                            let class_index2 = self.add_expression(
                                Expression::constant(const_value),
                            );
                            self.union(class_index2, folds[gi].1);
                            let ghost g2 = self@;
                            if const_value < 0 {
                                if let Some(positive) = 0i64.checked_sub(const_value) {
                                    let negated = Expression::negate(
                                        Expression::constant(positive),
                                    );
                                    proof {
                                        assert(negated@.children[0] == leaf(TagView::Const(
                                            positive as int,
                                        )));
                                        assert(ground(negated@.children[0]));
                                        assert(ground(negated@));
                                        assert(negated@ =~= unary(
                                            TagView::Neg,
                                            cnst(-(const_value as int)),
                                        ));
                                    }
                                    let class_index3 = self.add_expression(negated);
                                    self.union(class_index3, folds[gi].1);
                                } else {
                                    proof {
                                        assert(!in_i64(-(const_value as int)));
                                    }
                                }
                            }
                            proof {
                                assert(self@ == fold_step_spec(g_cur, m, c));
                            }
                        },
                    }
                },
            }
            proof {
                assert(self@ == apply_folds_spec(g0, foldsv.subrange(0, gi as int + 1)));
            }
            gi = gi + 1;
        }
        proof {
            assert(foldsv.subrange(0, num_folds as int) =~= foldsv);
        }
        let ghost after_folds = self@;
        let ghost itemsv = triple_views(matches@);
        let num_matches = matches.len();
        let mut mi: usize = 0;
        proof {
            assert(itemsv.subrange(0, 0) =~= Seq::<(ExprView, Subst, int)>::empty());
            assert(self@ == apply_matches_spec(after_folds, itemsv.subrange(0, 0)));
        }
        while mi < num_matches
            invariant
                wf_graph(self@),
                g0.len() <= self@.len(),
                num_matches == matches@.len(),
                itemsv == triple_views(matches@),
                itemsv.len() == num_matches,
                mi <= num_matches,
                self@ == apply_matches_spec(after_folds, itemsv.subrange(0, mi as int)),
                forall|i: int| 0 <= i < matches@.len() ==> (#[trigger] matches@[i]).1.wf(),
            decreases num_matches - mi,
        {
            let ghost g_cur = self@;
            proof {
                assert(itemsv[mi as int] == (
                    matches@[mi as int].0@,
                    matches@[mi as int].1@,
                    matches@[mi as int].2 as int,
                ));
                assert(itemsv.subrange(0, mi as int + 1).drop_last() =~= itemsv.subrange(
                    0,
                    mi as int,
                ));
                assert(itemsv.subrange(0, mi as int + 1).last() == itemsv[mi as int]);
            }
            let instance = matches[mi].0.apply_assignment(&matches[mi].1);
            if instance.is_ground() {
                let class_index2 = self.add_expression(instance);
                self.union(class_index2, matches[mi].2);
            }
            proof {
                assert(self@ == match_step_spec(
                    g_cur,
                    itemsv[mi as int].0,
                    itemsv[mi as int].1,
                    itemsv[mi as int].2,
                ));
                assert(self@ == apply_matches_spec(after_folds, itemsv.subrange(0, mi as int + 1)));
            }
            mi = mi + 1;
        }
        proof {
            assert(itemsv.subrange(0, num_matches as int) =~= itemsv);
            assert(self@ == iteration_spec(g0, rv, rule_depth as int, fold_depth as int));
        }
    }
}


/// Every tuple of a cartesian product draws its entry at each position from
/// that position's list.
pub proof fn lemma_product_of_split<A>(lists: Seq<Seq<A>>, xs: Seq<A>)
    requires
        product_of(lists).contains(xs),
    ensures
        xs.len() == lists.len(),
        forall|j: int| 0 <= j < lists.len() ==> #[trigger] lists[j].contains(xs[j]),
    decreases lists.len(),
{
    if lists.len() == 0 {
        assert(product_of(lists)[0] == xs);
    } else {
        lemma_product_append_split(lists[0], product_of(lists.drop_first()), xs);
        let (x, pp) = choose|x: A, p: Seq<A>|
            lists[0].contains(x) && product_of(lists.drop_first()).contains(p) && xs == seq![x]
                + p;
        lemma_product_of_split(lists.drop_first(), pp);
        assert(xs[0] == x);
        assert forall|j: int| 0 <= j < lists.len() implies #[trigger] lists[j].contains(
            xs[j],
        ) by {
            if j > 0 {
                assert(lists.drop_first()[j - 1].contains(pp[j - 1]));
                assert(xs[j] == pp[j - 1]);
            }
        }
    }
}

/// Every element of an appended product prepends an item to a tuple of the
/// rest.
pub proof fn lemma_product_append_split<A>(items: Seq<A>, rest: Seq<Seq<A>>, xs: Seq<A>)
    requires
        product_append(items, rest).contains(xs),
    ensures
        exists|x: A, p: Seq<A>|
            items.contains(x) && rest.contains(p) && xs == seq![x] + p,
    decreases items.len(),
{
    let i = choose|i: int|
        0 <= i < product_append(items, rest).len() && product_append(items, rest)[i] == xs;
    let pre = product_append(items.drop_last(), rest);
    if i < pre.len() {
        assert(pre.contains(xs));
        lemma_product_append_split(items.drop_last(), rest, xs);
        let (x, p) = choose|x: A, p: Seq<A>|
            items.drop_last().contains(x) && rest.contains(p) && xs == seq![x] + p;
        assert(items.contains(x)) by {
            let ii = choose|ii: int|
                0 <= ii < items.drop_last().len() && items.drop_last()[ii] == x;
            assert(items[ii] == x);
        }
        assert(items.contains(x) && rest.contains(p) && xs == seq![x] + p);
    } else {
        let mapped = rest.map_values(|p2: Seq<A>| seq![items.last()] + p2);
        assert(mapped[i - pre.len()] == xs);
        let p = rest[i - pre.len()];
        assert(rest.contains(p));
        assert(items.contains(items.last()));
        assert(xs == seq![items.last()] + p);
    }
}

/// Every expression a node list extracts comes from one of its nodes.
pub proof fn lemma_extract_nodes_split(
    g: Seq<EClassView>,
    nodes: Seq<NodeView>,
    e: ExprView,
    max: int,
    cur: int,
)
    requires
        extract_nodes_spec(g, nodes, max, cur).contains(e),
    ensures
        exists|k: int|
            0 <= k < nodes.len() && #[trigger] extract_node_spec(g, nodes[k], max, cur).contains(
                e,
            ),
    decreases nodes.len(),
{
    let i = choose|i: int|
        0 <= i < extract_nodes_spec(g, nodes, max, cur).len() && extract_nodes_spec(
            g,
            nodes,
            max,
            cur,
        )[i] == e;
    let pre = extract_nodes_spec(g, nodes.drop_last(), max, cur);
    if i < pre.len() {
        assert(pre.contains(e));
        lemma_extract_nodes_split(g, nodes.drop_last(), e, max, cur);
        let k = choose|k: int|
            0 <= k < nodes.drop_last().len() && #[trigger] extract_node_spec(
                g,
                nodes.drop_last()[k],
                max,
                cur,
            ).contains(e);
        assert(nodes[k] == nodes.drop_last()[k]);
        assert(extract_node_spec(g, nodes[k], max, cur).contains(e));
    } else {
        let part = extract_node_spec(g, nodes.last(), max, cur);
        assert(part[i - pre.len()] == e);
        assert(part.contains(e));
        assert(nodes[nodes.len() - 1] == nodes.last());
        assert(extract_node_spec(g, nodes[nodes.len() - 1], max, cur).contains(e));
    }
}

/// Extraction only grows with the remaining budget: whatever a class or an
/// e-node yields under one budget it also yields under a larger one.
pub proof fn lemma_extract_class_mono(
    g: Seq<EClassView>,
    c: int,
    e: ExprView,
    max: int,
    cur: int,
    max2: int,
    cur2: int,
)
    requires
        max - cur <= max2 - cur2,
        extract_class_spec(g, c, max, cur).contains(e),
    ensures
        extract_class_spec(g, c, max2, cur2).contains(e),
    decreases fuel_of(max, cur), 3int,
{
    assert(cur <= max);
    let nodes = g[root_of(g, c)].children;
    lemma_extract_nodes_split(g, nodes, e, max, cur);
    let k = choose|k: int|
        0 <= k < nodes.len() && #[trigger] extract_node_spec(g, nodes[k], max, cur).contains(e);
    lemma_extract_node_mono(g, nodes[k], e, max, cur, max2, cur2);
    lemma_extract_nodes_contains(g, nodes, k, e, max2, cur2);
}

/// Budget monotonicity for one e-node.
pub proof fn lemma_extract_node_mono(
    g: Seq<EClassView>,
    n: NodeView,
    e: ExprView,
    max: int,
    cur: int,
    max2: int,
    cur2: int,
)
    requires
        max - cur <= max2 - cur2,
        extract_node_spec(g, n, max, cur).contains(e),
    ensures
        extract_node_spec(g, n, max2, cur2).contains(e),
    decreases fuel_of(max, cur), 2int,
{
    let lists = extract_child_lists(g, n.children, max, cur);
    let lists2 = extract_child_lists(g, n.children, max2, cur2);
    lemma_extract_child_lists_len(g, n.children, max, cur);
    lemma_extract_child_lists_len(g, n.children, max2, cur2);
    let mapped = product_of(lists).map_values(|t: Seq<ExprView>| ExprView { t: n.t, children: t });
    let i = choose|i: int| 0 <= i < mapped.len() && mapped[i] == e;
    let tuple = product_of(lists)[i];
    assert(product_of(lists).contains(tuple));
    lemma_product_of_split(lists, tuple);
    assert forall|j: int| 0 <= j < lists2.len() implies #[trigger] lists2[j].contains(
        tuple[j],
    ) by {
        assert(lists[j].contains(tuple[j]));
        lemma_extract_child_lists_at(g, n.children, max, cur, j);
        lemma_extract_child_lists_at(g, n.children, max2, cur2, j);
        if cur > max {
            assert(lists[j] =~= Seq::<ExprView>::empty());
            assert(false);
        }
        if cur2 > max2 {
            assert(false);
        }
        lemma_extract_class_mono(g, n.children[j], tuple[j], max, cur + 1, max2, cur2 + 1);
    }
    lemma_product_of_contains(lists2, tuple);
    let idx = choose|idx: int|
        0 <= idx < product_of(lists2).len() && product_of(lists2)[idx] == tuple;
    let mapped2 = product_of(lists2).map_values(
        |t: Seq<ExprView>| ExprView { t: n.t, children: t },
    );
    assert(mapped2[idx] == e);
    assert(mapped2.contains(e));
}

/// Each per-child extraction list, one child at a time.
pub proof fn lemma_extract_child_lists_at(
    g: Seq<EClassView>,
    ids: Seq<int>,
    max: int,
    cur: int,
    j: int,
)
    requires
        0 <= j < ids.len(),
    ensures
        extract_child_lists(g, ids, max, cur)[j] == (if cur > max {
            Seq::<ExprView>::empty()
        } else {
            extract_class_spec(g, ids[j], max, cur + 1)
        }),
    decreases ids.len(),
{
    lemma_extract_child_lists_len(g, ids, max, cur);
    lemma_extract_child_lists_len(g, ids.drop_last(), max, cur);
    if j < ids.len() - 1 {
        lemma_extract_child_lists_at(g, ids.drop_last(), max, cur, j);
        assert(ids.drop_last()[j] == ids[j]);
    }
}


/// Every substitution a node list finds comes from one of its nodes.
pub proof fn lemma_search_nodes_split(
    g: Seq<EClassView>,
    nodes: Seq<NodeView>,
    m: Subst,
    p: ExprView,
    max: int,
)
    requires
        search_nodes_spec(g, nodes, p, max).contains(m),
    ensures
        exists|k: int|
            0 <= k < nodes.len() && #[trigger] search_node_spec(g, nodes[k], p, max).contains(m),
    decreases nodes.len(),
{
    let i = choose|i: int|
        0 <= i < search_nodes_spec(g, nodes, p, max).len() && search_nodes_spec(
            g,
            nodes,
            p,
            max,
        )[i] == m;
    let pre = search_nodes_spec(g, nodes.drop_last(), p, max);
    if i < pre.len() {
        assert(pre.contains(m));
        lemma_search_nodes_split(g, nodes.drop_last(), m, p, max);
        let k = choose|k: int|
            0 <= k < nodes.drop_last().len() && #[trigger] search_node_spec(
                g,
                nodes.drop_last()[k],
                p,
                max,
            ).contains(m);
        assert(nodes[k] == nodes.drop_last()[k]);
        assert(search_node_spec(g, nodes[k], p, max).contains(m));
    } else {
        let part = search_node_spec(g, nodes.last(), p, max);
        assert(part[i - pre.len()] == m);
        assert(part.contains(m));
        assert(nodes[nodes.len() - 1] == nodes.last());
        assert(search_node_spec(g, nodes[nodes.len() - 1], p, max).contains(m));
    }
}

/// Every merged substitution comes from a successfully merged tuple.
pub proof fn lemma_merge_products_split(tuples: Seq<Seq<Subst>>, m: Subst)
    requires
        merge_products(tuples).contains(m),
    ensures
        exists|t: Seq<Subst>| #[trigger] tuples.contains(t) && merge_maps(t) == Some(m),
    decreases tuples.len(),
{
    let i = choose|i: int|
        0 <= i < merge_products(tuples).len() && merge_products(tuples)[i] == m;
    let pre = merge_products(tuples.drop_last());
    if i < pre.len() {
        assert(pre.contains(m));
        lemma_merge_products_split(tuples.drop_last(), m);
        let t = choose|t: Seq<Subst>|
            #[trigger] tuples.drop_last().contains(t) && merge_maps(t) == Some(m);
        let k = choose|k: int| 0 <= k < tuples.drop_last().len() && tuples.drop_last()[k] == t;
        assert(tuples[k] == t);
        assert(tuples.contains(t));
    } else {
        assert(merge_maps(tuples.last()) == Some(m));
        assert(tuples[tuples.len() - 1] == tuples.last());
        assert(tuples.contains(tuples.last()));
    }
}

/// A successful merge binds the union of its parts' names, each to its
/// part's expression.
pub proof fn lemma_merge_maps_parts(ms: Seq<Subst>, m: Subst)
    requires
        merge_maps(ms) == Some(m),
    ensures
        forall|j: int, k: Seq<char>|
            0 <= j < ms.len() && #[trigger] ms[j].dom().contains(k) ==> m.dom().contains(k)
                && m[k] == ms[j][k],
        forall|k: Seq<char>| #[trigger]
            m.dom().contains(k) ==> exists|j: int| 0 <= j < ms.len() && ms[j].dom().contains(k),
    decreases ms.len(),
{
    if ms.len() > 0 {
        let mpre = merge_maps(ms.drop_last()).unwrap();
        lemma_merge_maps_parts(ms.drop_last(), mpre);
        assert(forall|j: int| 0 <= j < ms.len() - 1 ==> ms.drop_last()[j] == ms[j]);
        assert forall|j: int, k: Seq<char>|
            0 <= j < ms.len() && #[trigger] ms[j].dom().contains(k) implies m.dom().contains(k)
            && m[k] == ms[j][k] by {
            if j < ms.len() - 1 {
                assert(ms.drop_last()[j].dom().contains(k));
                assert(mpre[k] == ms[j][k]);
                if ms.last().dom().contains(k) {
                    assert(mpre[k] == ms.last()[k]);
                }
            }
        }
        assert forall|k: Seq<char>| #[trigger] m.dom().contains(k) implies exists|j: int|
            0 <= j < ms.len() && ms[j].dom().contains(k) by {
            if ms.last().dom().contains(k) {
                assert(ms[ms.len() - 1].dom().contains(k));
            } else {
                assert(mpre.dom().contains(k));
                let j = choose|j: int|
                    0 <= j < ms.drop_last().len() && ms.drop_last()[j].dom().contains(k);
                assert(ms[j].dom().contains(k));
            }
        }
    }
}

/// Each per-child search list, one child at a time.
pub proof fn lemma_search_child_lists_at(
    g: Seq<EClassView>,
    ids: Seq<int>,
    ps: Seq<ExprView>,
    max: int,
    j: int,
)
    requires
        ids.len() == ps.len(),
        0 <= j < ids.len(),
    ensures
        search_child_lists(g, ids, ps, max).len() == ids.len(),
        search_child_lists(g, ids, ps, max)[j] == search_class_spec(g, ids[j], ps[j], max),
    decreases ids.len(),
{
    lemma_search_child_lists_len(g, ids, ps, max);
    if j < ids.len() - 1 {
        lemma_search_child_lists_at(g, ids.drop_last(), ps.drop_last(), max, j);
        assert(ids.drop_last()[j] == ids[j]);
        assert(ps.drop_last()[j] == ps[j]);
        lemma_search_child_lists_len(g, ids.drop_last(), ps.drop_last(), max);
    }
}

/// The per-child search lists go child for child.
pub proof fn lemma_search_child_lists_len(
    g: Seq<EClassView>,
    ids: Seq<int>,
    ps: Seq<ExprView>,
    max: int,
)
    requires
        ids.len() == ps.len(),
    ensures
        search_child_lists(g, ids, ps, max).len() == ids.len(),
    decreases ids.len(),
{
    if ids.len() > 0 {
        lemma_search_child_lists_len(g, ids.drop_last(), ps.drop_last(), max);
    }
}

/// Every substitution that search yields binds exactly the pattern's
/// meta-variables.
pub proof fn lemma_search_dom(
    g: Seq<EClassView>,
    c: int,
    p: ExprView,
    max: int,
    m: Subst,
)
    requires
        search_class_spec(g, c, p, max).contains(m),
    ensures
        m.dom() =~= metavars(p),
    decreases p, 3int,
{
    let nodes = g[root_of(g, c)].children;
    lemma_search_nodes_split(g, nodes, m, p, max);
    let k = choose|k: int|
        0 <= k < nodes.len() && #[trigger] search_node_spec(g, nodes[k], p, max).contains(m);
    lemma_search_node_dom(g, nodes[k], p, max, m);
}

/// Domain of one e-node's search results.
pub proof fn lemma_search_node_dom(
    g: Seq<EClassView>,
    n: NodeView,
    p: ExprView,
    max: int,
    m: Subst,
)
    requires
        search_node_spec(g, n, p, max).contains(m),
    ensures
        m.dom() =~= metavars(p),
    decreases p, 2int,
{
    match p.t {
        TagView::MetaVar(x) => {
            let f = extract_node_spec(g, n, max, 0).map_values(
                |e: ExprView| Map::<Seq<char>, ExprView>::empty().insert(x, e),
            );
            let i = choose|i: int| 0 <= i < f.len() && f[i] == m;
            assert(m == Map::<Seq<char>, ExprView>::empty().insert(
                x,
                extract_node_spec(g, n, max, 0)[i],
            ));
        },
        _ => {
            let lists = search_child_lists(g, n.children, p.children, max);
            lemma_merge_products_split(product_of(lists), m);
            let t = choose|t: Seq<Subst>|
                #[trigger] product_of(lists).contains(t) && merge_maps(t) == Some(m);
            lemma_product_of_split(lists, t);
            lemma_merge_maps_parts(t, m);
            lemma_search_child_lists_len(g, n.children, p.children, max);
            assert forall|k: Seq<char>| #[trigger] metavars(p).contains(k) implies
                m.dom().contains(k) by {
                lemma_metavars_of_seq_split(p.children, k);
                let j = choose|j: int|
                    0 <= j < p.children.len() && #[trigger] metavars(p.children[j]).contains(k);
                lemma_search_child_lists_at(g, n.children, p.children, max, j);
                assert(lists[j].contains(t[j]));
                lemma_search_dom(g, n.children[j], p.children[j], max, t[j]);
                assert(t[j].dom().contains(k));
            }
            assert forall|k: Seq<char>| #[trigger] m.dom().contains(k) implies
                metavars(p).contains(k) by {
                let j = choose|j: int| 0 <= j < t.len() && t[j].dom().contains(k);
                lemma_search_child_lists_at(g, n.children, p.children, max, j);
                assert(lists[j].contains(t[j]));
                lemma_search_dom(g, n.children[j], p.children[j], max, t[j]);
                assert(metavars(p.children[j]).contains(k));
                lemma_metavars_of_seq_member(p.children, j, k);
            }
        },
    }
}

/// A name among a sequence's meta-variables occurs in one of its
/// expressions.
pub proof fn lemma_metavars_of_seq_split(s: Seq<ExprView>, k: Seq<char>)
    requires
        metavars_of_seq(s).contains(k),
    ensures
        exists|j: int| 0 <= j < s.len() && #[trigger] metavars(s[j]).contains(k),
    decreases s.len(),
{
    if s.len() > 0 {
        if metavars(s.last()).contains(k) {
            assert(metavars(s[s.len() - 1]).contains(k));
        } else {
            lemma_metavars_of_seq_split(s.drop_last(), k);
            let j = choose|j: int|
                0 <= j < s.drop_last().len() && #[trigger] metavars(s.drop_last()[j]).contains(k);
            assert(metavars(s[j]).contains(k));
        }
    }
}


/// A substitution found by searching a class turns the pattern into an
/// expression that the class extracts, once the extraction budget also
/// covers the pattern's own height: pattern descent spends no budget, while
/// extraction spends one level per pattern level.
pub proof fn lemma_search_sound(
    g: Seq<EClassView>,
    c: int,
    p: ExprView,
    max: int,
    m: Subst,
    big_max: int,
    cur: int,
)
    requires
        wf_graph(g),
        0 <= c < g.len(),
        0 <= max,
        0 <= cur,
        big_max - cur >= max + height(p),
        search_class_spec(g, c, p, max).contains(m),
    ensures
        extract_class_spec(g, c, big_max, cur).contains(apply_subst(p, m)),
    decreases p,
{
    lemma_root_of(g, c);
    let root = root_of(g, c);
    assert(wf_class(g, g[root], root));
    let nodes = g[root].children;
    lemma_search_nodes_split(g, nodes, m, p, max);
    let k = choose|k: int|
        0 <= k < nodes.len() && #[trigger] search_node_spec(g, nodes[k], p, max).contains(m);
    let n = nodes[k];
    assert(node_ok(g, n));
    match p.t {
        TagView::MetaVar(x) => {
            let f = extract_node_spec(g, n, max, 0).map_values(
                |e: ExprView| Map::<Seq<char>, ExprView>::empty().insert(x, e),
            );
            let i = choose|i: int| 0 <= i < f.len() && f[i] == m;
            let e = extract_node_spec(g, n, max, 0)[i];
            assert(extract_node_spec(g, n, max, 0).contains(e));
            assert(m == Map::<Seq<char>, ExprView>::empty().insert(x, e));
            assert(apply_subst(p, m) == e);
            lemma_extract_node_mono(g, n, e, max, 0, big_max, cur);
            lemma_extract_nodes_contains(g, nodes, k, e, big_max, cur);
        },
        _ => {
            assert(p.t == n.t && p.children.len() == n.children.len());
            let lists = search_child_lists(g, n.children, p.children, max);
            lemma_merge_products_split(product_of(lists), m);
            let t = choose|t: Seq<Subst>|
                #[trigger] product_of(lists).contains(t) && merge_maps(t) == Some(m);
            lemma_product_of_split(lists, t);
            lemma_merge_maps_parts(t, m);
            lemma_search_child_lists_len(g, n.children, p.children, max);
            lemma_apply_subst_seq(p.children, m);
            let xs = apply_subst_seq(p.children, m);
            let lists2 = extract_child_lists(g, n.children, big_max, cur);
            lemma_extract_child_lists_len(g, n.children, big_max, cur);
            if p.children.len() > 0 {
                lemma_max_child_height(p.children);
            }
            assert forall|j: int| 0 <= j < lists2.len() implies #[trigger] lists2[j].contains(
                xs[j],
            ) by {
                lemma_search_child_lists_at(g, n.children, p.children, max, j);
                assert(lists[j].contains(t[j]));
                lemma_search_dom(g, n.children[j], p.children[j], max, t[j]);
                assert forall|x: Seq<char>| #[trigger] metavars(p.children[j]).contains(
                    x,
                ) implies (m.dom().contains(x) == t[j].dom().contains(x) && (m.dom().contains(x)
                    ==> m[x] == t[j][x])) by {
                    assert(t[j].dom().contains(x));
                }
                lemma_apply_agree(p.children[j], m, t[j]);
                assert(xs[j] == apply_subst(p.children[j], t[j]));
                assert(height(p.children[j]) <= max_child_height(p.children));
                lemma_search_sound(
                    g,
                    n.children[j],
                    p.children[j],
                    max,
                    t[j],
                    big_max,
                    cur + 1,
                );
                lemma_extract_child_lists_at(g, n.children, big_max, cur, j);
            }
            lemma_product_of_contains(lists2, xs);
            let idx = choose|idx: int|
                0 <= idx < product_of(lists2).len() && product_of(lists2)[idx] == xs;
            let mapped = product_of(lists2).map_values(
                |tt: Seq<ExprView>| ExprView { t: n.t, children: tt },
            );
            assert(mapped[idx] == (ExprView { t: n.t, children: xs }));
            assert(apply_subst(p, m) =~= (ExprView { t: n.t, children: xs }));
            assert(extract_node_spec(g, n, big_max, cur).contains(apply_subst(p, m)));
            lemma_extract_nodes_contains(g, nodes, k, apply_subst(p, m), big_max, cur);
        },
    }
}

/// Every search result is sound: a substitution found with a class turns
/// the pattern into an expression extractable from that class within the
/// search budget widened by the pattern's height.
pub proof fn lemma_search_within_extraction(
    g: Seq<EClassView>,
    p: ExprView,
    max: int,
    m: Subst,
    c: int,
)
    requires
        wf_graph(g),
        0 <= max,
        search_spec(g, p, max).contains((m, c)),
    ensures
        0 <= c < g.len(),
        extract_class_spec(g, c, max + height(p), 0).contains(apply_subst(p, m)),
{
    lemma_search_upto_split(g, p, max, m, c, g.len() as int);
    lemma_search_sound(g, c, p, max, m, max + height(p) as int, 0);
}

/// A pair in the search over the first `n` classes names a class below `n`
/// whose own search found the substitution.
pub proof fn lemma_search_upto_split(
    g: Seq<EClassView>,
    p: ExprView,
    max: int,
    m: Subst,
    c: int,
    n: int,
)
    requires
        search_upto_spec(g, p, max, n).contains((m, c)),
    ensures
        0 <= c < n,
        search_class_spec(g, c, p, max).contains(m),
    decreases n,
{
    let i = choose|i: int|
        0 <= i < search_upto_spec(g, p, max, n).len() && search_upto_spec(g, p, max, n)[i] == (
        m,
        c,
        );
    let pre = search_upto_spec(g, p, max, n - 1);
    if i < pre.len() {
        assert(pre.contains((m, c)));
        lemma_search_upto_split(g, p, max, m, c, n - 1);
    } else {
        let f = search_class_spec(g, n - 1, p, max).map_values(|mm: Subst| (mm, n - 1));
        assert(f[i - pre.len()] == (m, c));
        assert(search_class_spec(g, n - 1, p, max)[i - pre.len()] == m);
        assert(search_class_spec(g, n - 1, p, max).contains(m));
    }
}


/// An appended product holds one tuple per item and tuple of the rest.
pub proof fn lemma_product_append_len<A>(items: Seq<A>, rest: Seq<Seq<A>>)
    ensures
        product_append(items, rest).len() == items.len() * rest.len(),
    decreases items.len(),
{
    if items.len() > 0 {
        lemma_product_append_len(items.drop_last(), rest);
        assert((items.len() - 1) * rest.len() + rest.len() == items.len() * rest.len())
            by (nonlinear_arith);
    }
}

/// Lists at least as long at every position give a cartesian product at
/// least as large.
pub proof fn lemma_product_of_len_mono<A>(lists: Seq<Seq<A>>, lists2: Seq<Seq<A>>)
    requires
        lists.len() == lists2.len(),
        forall|j: int| 0 <= j < lists.len() ==> #[trigger] lists[j].len() <= lists2[j].len(),
    ensures
        product_of(lists).len() <= product_of(lists2).len(),
    decreases lists.len(),
{
    if lists.len() > 0 {
        assert(forall|j: int|
            0 <= j < lists.drop_first().len() ==> #[trigger] lists.drop_first()[j].len()
                <= lists2.drop_first()[j].len());
        lemma_product_of_len_mono(lists.drop_first(), lists2.drop_first());
        lemma_product_append_len(lists[0], product_of(lists.drop_first()));
        lemma_product_append_len(lists2[0], product_of(lists2.drop_first()));
        assert(lists[0].len() * product_of(lists.drop_first()).len() <= lists2[0].len()
            * product_of(lists2.drop_first()).len()) by (nonlinear_arith)
            requires
                lists[0].len() <= lists2[0].len(),
                product_of(lists.drop_first()).len() <= product_of(lists2.drop_first()).len(),
        ;
    }
}

/// A larger remaining budget never extracts fewer expressions from a class.
/// This is the monotone size of depth-bounded extraction: the cutoff only
/// recedes as the bound grows.
pub proof fn lemma_extract_class_size_mono(
    g: Seq<EClassView>,
    c: int,
    max: int,
    cur: int,
    max2: int,
    cur2: int,
)
    requires
        max - cur <= max2 - cur2,
    ensures
        extract_class_spec(g, c, max, cur).len() <= extract_class_spec(g, c, max2, cur2).len(),
    decreases fuel_of(max, cur), 3int, 0int,
{
    if cur <= max {
        lemma_extract_nodes_size_mono(g, g[root_of(g, c)].children, max, cur, max2, cur2);
    }
}

/// Size monotonicity over a node list.
pub proof fn lemma_extract_nodes_size_mono(
    g: Seq<EClassView>,
    nodes: Seq<NodeView>,
    max: int,
    cur: int,
    max2: int,
    cur2: int,
)
    requires
        max - cur <= max2 - cur2,
    ensures
        extract_nodes_spec(g, nodes, max, cur).len() <= extract_nodes_spec(
            g,
            nodes,
            max2,
            cur2,
        ).len(),
    decreases fuel_of(max, cur), 2int, nodes.len(),
{
    if nodes.len() > 0 {
        lemma_extract_nodes_size_mono(g, nodes.drop_last(), max, cur, max2, cur2);
        lemma_extract_node_size_mono(g, nodes.last(), max, cur, max2, cur2);
    }
}

/// Size monotonicity for one e-node.
pub proof fn lemma_extract_node_size_mono(
    g: Seq<EClassView>,
    n: NodeView,
    max: int,
    cur: int,
    max2: int,
    cur2: int,
)
    requires
        max - cur <= max2 - cur2,
    ensures
        extract_node_spec(g, n, max, cur).len() <= extract_node_spec(g, n, max2, cur2).len(),
    decreases fuel_of(max, cur), 1int, 0int,
{
    let lists = extract_child_lists(g, n.children, max, cur);
    let lists2 = extract_child_lists(g, n.children, max2, cur2);
    lemma_extract_child_lists_len(g, n.children, max, cur);
    lemma_extract_child_lists_len(g, n.children, max2, cur2);
    assert forall|j: int| 0 <= j < lists.len() implies #[trigger] lists[j].len()
        <= lists2[j].len() by {
        lemma_extract_child_lists_at(g, n.children, max, cur, j);
        lemma_extract_child_lists_at(g, n.children, max2, cur2, j);
        if cur > max {
        } else {
            if cur2 > max2 {
                assert(false);
            }
            lemma_extract_class_size_mono(g, n.children[j], max, cur + 1, max2, cur2 + 1);
        }
    }
    lemma_product_of_len_mono(lists, lists2);
}


/// A subterm of an expression that matches a class of a well-formed graph
/// itself matches some class of the graph: the matching derivation assigns
/// a class to every position of the expression.
pub proof fn lemma_subexpr_matches_somewhere(
    g: Seq<EClassView>,
    y: ExprView,
    c: int,
    s: ExprView,
)
    requires
        wf_graph(g),
        0 <= c < g.len(),
        class_matches(g, y, c),
        is_subexpr(s, y),
    ensures
        exists|c2: int| 0 <= c2 < g.len() && class_matches(g, s, c2),
    decreases y,
{
    if s == y {
        assert(0 <= c < g.len() && class_matches(g, s, c));
    } else {
        let kk = choose|kk: int|
            0 <= kk < y.children.len() && is_subexpr(s, #[trigger] y.children[kk]);
        assert(wf_class(g, g[c], c));
        let k = choose|k: int|
            0 <= k < g[c].children.len() && node_matches(g, y, #[trigger] g[c].children[k]);
        let n = g[c].children[k];
        assert(node_ok(g, n));
        assert(class_matches(g, y.children[kk], n.children[kk]));
        assert(0 <= n.children[kk] < g.len());
        lemma_subexpr_matches_somewhere(g, y.children[kk], n.children[kk], s);
    }
}

} // verus!
