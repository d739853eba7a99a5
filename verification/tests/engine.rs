use egraph::exprs::Expression;
use egraph::graphs::EGraph;
use egraph::rules::Rule;

fn contains(list: &[Expression], wanted: &Expression) -> bool {
    list.iter().any(|e| e == wanted)
}

#[test]
fn deduplication_returns_same_identifier() {
    let mut graph = EGraph::init();
    let expression = Expression::add(Expression::constant(0), Expression::variable("x"));
    let first = graph.add_expression(expression.clone());
    let second = graph.add_expression(expression);
    assert_eq!(first, 2);
    assert_eq!(second, 2);
    assert_eq!(graph.children.len(), 3);
}

#[test]
fn basic_rewrite_discovers_identity() {
    let mut graph = EGraph::init();
    let start = Expression::add(Expression::constant(0), Expression::variable("x"));
    let index = graph.add_expression(start);
    let rules = vec![
        Rule {
            lhs: Expression::add(
                Expression::meta_variable("a"),
                Expression::meta_variable("b"),
            ),
            rhs: Expression::add(
                Expression::meta_variable("b"),
                Expression::meta_variable("a"),
            ),
        },
        Rule {
            lhs: Expression::add(Expression::meta_variable("a"), Expression::constant(0)),
            rhs: Expression::meta_variable("a"),
        },
    ];
    // Matches are collected from a snapshot before any is applied, so the
    // identity redex Add(x, 0) exists only after the first iteration has
    // merged the commuted form; the variable appears with the second.
    graph.apply_rules_iteration(&rules, 2, 2);
    graph.apply_rules_iteration(&rules, 2, 2);
    let extracted = graph.extract_all(index, 2);
    assert!(contains(&extracted, &Expression::variable("x")));
}

#[test]
fn division_by_self_recovers_variable() {
    let mut graph = EGraph::init();
    let start = Expression::divide(
        Expression::multiply(Expression::variable("x"), Expression::constant(2)),
        Expression::constant(2),
    );
    let index = graph.add_expression(start);
    let rules = Rule::rules();
    for _ in 0..3 {
        graph.apply_rules_iteration(&rules, 3, 4);
    }
    let extracted = graph.extract_all(index, 4);
    assert!(contains(&extracted, &Expression::variable("x")));
}

#[test]
fn constant_folding_with_negation() {
    let mut graph = EGraph::init();
    let start = Expression::divide(Expression::constant(-6), Expression::constant(-3));
    let index = graph.add_expression(start);
    let rules = Rule::rules();
    graph.apply_rules_iteration(&rules, 3, 3);
    let extracted = graph.extract_all(index, 3);
    assert!(contains(&extracted, &Expression::constant(2)));
    let minus_six = graph.extract_all(0, 3);
    assert!(contains(&minus_six, &Expression::constant(-6)));
    assert!(contains(
        &minus_six,
        &Expression::negate(Expression::constant(6)),
    ));
}

#[test]
fn pattern_capture_consistency() {
    let pattern = Expression::add(
        Expression::meta_variable("a"),
        Expression::meta_variable("a"),
    );
    let different = Expression::add(Expression::variable("x"), Expression::variable("y"));
    assert!(pattern.structural_match(&different).is_none());
    let same = Expression::add(Expression::variable("x"), Expression::variable("x"));
    let assignment = pattern.structural_match(&same).unwrap();
    assert_eq!(assignment.len(), 1);
    assert!(assignment.get("a").unwrap() == &Expression::variable("x"));
}

#[test]
fn extraction_depth_cutoff_is_monotone() {
    let mut graph = EGraph::init();
    let start = Expression::add(Expression::constant(0), Expression::variable("x"));
    let index = graph.add_expression(start);
    graph.union(index, 1);
    let mut previous = 0;
    for depth in 0..4 {
        let extracted = graph.extract_all(1, depth);
        assert!(extracted.len() >= previous);
        previous = extracted.len();
    }
    assert!(graph.extract_all(1, 0).len() <= 1);
}

#[test]
fn extraction_contains_added_expression() {
    let mut graph = EGraph::init();
    let expression = Expression::multiply(
        Expression::add(Expression::variable("x"), Expression::constant(1)),
        Expression::variable("y"),
    );
    let index = graph.add_expression(expression.clone());
    let extracted = graph.extract_all(index, 2);
    assert!(contains(&extracted, &expression));
    assert!(!contains(&graph.extract_all(index, 1), &expression));
}

#[test]
fn union_redirects_to_lower_root() {
    let mut graph = EGraph::init();
    let x = graph.add_expression(Expression::variable("x"));
    let y = graph.add_expression(Expression::variable("y"));
    assert_eq!((x, y), (0, 1));
    graph.union(y, x);
    assert_eq!(graph.add_expression(Expression::variable("x")), 0);
    assert_eq!(graph.add_expression(Expression::variable("y")), 0);
    assert_eq!(graph.children.len(), 2);
}

#[test]
fn union_out_of_range_is_a_no_op() {
    let mut graph = EGraph::init();
    graph.add_expression(Expression::variable("x"));
    graph.union(0, 7);
    graph.union(0, 0);
    assert_eq!(graph.children.len(), 1);
    assert_eq!(graph.add_expression(Expression::variable("x")), 0);
}

#[test]
fn search_binds_subtrees() {
    let mut graph = EGraph::init();
    let expression = Expression::divide(Expression::variable("x"), Expression::constant(2));
    let index = graph.add_expression(expression);
    let pattern = Expression::divide(
        Expression::meta_variable("a"),
        Expression::meta_variable("b"),
    );
    let found = graph.search(&pattern, 3);
    assert!(!found.is_empty());
    let mut seen_full = false;
    for (assignment, class_index) in &found {
        let rebuilt = pattern.apply_assignment(assignment);
        let deep_enough = graph.extract_all(*class_index, 3 + 2);
        assert!(contains(&deep_enough, &rebuilt));
        if *class_index == index
            && assignment.get("a").unwrap() == &Expression::variable("x")
            && assignment.get("b").unwrap() == &Expression::constant(2)
        {
            seen_full = true;
        }
    }
    assert!(seen_full);
}

#[test]
fn match_then_apply_round_trip() {
    let pattern = Expression::multiply(
        Expression::add(Expression::meta_variable("a"), Expression::meta_variable("b")),
        Expression::meta_variable("a"),
    );
    let subject = Expression::multiply(
        Expression::add(Expression::variable("u"), Expression::constant(4)),
        Expression::variable("u"),
    );
    let assignment = pattern.structural_match(&subject).unwrap();
    assert!(pattern.apply_assignment(&assignment) == subject);
}

#[test]
fn apply_assignment_leaves_unbound_meta_variables() {
    let pattern = Expression::add(
        Expression::meta_variable("a"),
        Expression::meta_variable("c"),
    );
    let lhs = Expression::add(Expression::meta_variable("a"), Expression::meta_variable("b"));
    let subject = Expression::add(Expression::variable("x"), Expression::variable("y"));
    let assignment = lhs.structural_match(&subject).unwrap();
    let rebuilt = pattern.apply_assignment(&assignment);
    assert!(
        rebuilt
            == Expression::add(Expression::variable("x"), Expression::meta_variable("c"))
    );
}

#[test]
fn const_eval_exact_arithmetic() {
    let e = Expression::multiply(
        Expression::add(Expression::constant(1), Expression::constant(1)),
        Expression::constant(3),
    );
    assert_eq!(e.const_eval(), Some(6));
    let d = Expression::divide(Expression::constant(6), Expression::constant(-3));
    assert_eq!(d.const_eval(), Some(-2));
    let n = Expression::negate(Expression::constant(5));
    assert_eq!(n.const_eval(), Some(-5));
    let s = Expression::subtract(Expression::constant(2), Expression::constant(9));
    assert_eq!(s.const_eval(), Some(-7));
}

#[test]
fn const_eval_failures() {
    assert_eq!(Expression::variable("x").const_eval(), None);
    assert_eq!(Expression::meta_variable("a").const_eval(), None);
    let inexact = Expression::divide(Expression::constant(7), Expression::constant(2));
    assert_eq!(inexact.const_eval(), None);
    let by_zero = Expression::divide(Expression::constant(7), Expression::constant(0));
    assert_eq!(by_zero.const_eval(), None);
    let overflow = Expression::add(
        Expression::constant(i64::MAX),
        Expression::constant(1),
    );
    assert_eq!(overflow.const_eval(), None);
    let neg_overflow = Expression::negate(Expression::constant(i64::MIN));
    assert_eq!(neg_overflow.const_eval(), None);
    let div_overflow = Expression::divide(
        Expression::constant(i64::MIN),
        Expression::constant(-1),
    );
    assert_eq!(div_overflow.const_eval(), None);
    let open_subtree = Expression::add(Expression::constant(1), Expression::variable("x"));
    assert_eq!(open_subtree.const_eval(), None);
}

#[test]
fn rules_catalogue_shape() {
    let rules = Rule::rules();
    assert_eq!(rules.len(), 15);
    assert!(
        rules[0].lhs
            == Expression::add(
                Expression::meta_variable("a"),
                Expression::meta_variable("b"),
            )
    );
    assert!(rules[14].rhs == Expression::constant(1));
}

#[test]
fn render_infix_text() {
    let e = Expression::add(Expression::variable("x"), Expression::constant(1));
    assert_eq!(e.render(), "(x + 1)");
    let n = Expression::negate(Expression::constant(-5));
    assert_eq!(n.render(), "-(-5)");
    let m = Expression::meta_variable("a");
    assert_eq!(m.render(), "?a");
    let d = Expression::divide(
        Expression::multiply(Expression::variable("x"), Expression::constant(27)),
        Expression::constant(10),
    );
    assert_eq!(d.render(), "((x * 27) / 10)");
}

#[test]
fn into_owned_preserves_value() {
    let e = Expression::add(Expression::variable("x"), Expression::constant(1));
    let copy = e.clone().into_owned();
    assert!(copy == e);
}

#[test]
fn class_syntactic_equality_respects_unions() {
    let mut graph = EGraph::init();
    let x = graph.add_expression(Expression::variable("x"));
    let y = graph.add_expression(Expression::variable("y"));
    let sum = graph.add_expression(Expression::add(
        Expression::variable("x"),
        Expression::variable("x"),
    ));
    let other = Expression::add(Expression::variable("x"), Expression::variable("y"));
    assert!(!graph.class_syntactically_equal_to_expression(&other, sum));
    graph.union(x, y);
    assert!(graph.class_syntactically_equal_to_expression(&other, sum));
}
