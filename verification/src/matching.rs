//! Substitutions and pattern matching over expressions.

use vstd::prelude::*;

use crate::exprs::Expression;
use crate::exprs::ExprView;
use crate::exprs::NodeType;
use crate::exprs::Subst;
use crate::exprs::TagView;
use crate::exprs::apply_subst;
use crate::exprs::apply_subst_seq;
use crate::exprs::lemma_apply_subst_seq;
use crate::exprs::lemma_views_of_exprs;
use crate::exprs::metavars;
use crate::exprs::wf_arity;
use crate::exprs::metavars_of_seq;

verus! {

/// The views of a sequence of name/expression pairs, in order.
pub open spec fn pair_views(s: Seq<(String, Expression)>) -> Seq<(Seq<char>, ExprView)>
    decreases s.len(),
{
    if s.len() == 0 {
        Seq::empty()
    } else {
        pair_views(s.drop_last()).push((s.last().0@, s.last().1@))
    }
}

/// `pair_views` maps each pair to its views, in place.
pub proof fn lemma_pair_views(s: Seq<(String, Expression)>)
    ensures
        pair_views(s).len() == s.len(),
        forall|i: int| 0 <= i < s.len() ==> pair_views(s)[i] == (s[i].0@, s[i].1@),
    decreases s.len(),
{
    if s.len() > 0 {
        lemma_pair_views(s.drop_last());
    }
}

/// The finite map that a sequence of bindings denotes, later entries
/// overriding earlier ones.
pub open spec fn map_of(ps: Seq<(Seq<char>, ExprView)>) -> Subst
    decreases ps.len(),
{
    if ps.len() == 0 {
        Map::empty()
    } else {
        map_of(ps.drop_last()).insert(ps.last().0, ps.last().1)
    }
}

/// A key is bound by `map_of` exactly when some entry carries it.
pub proof fn lemma_map_of_contains(ps: Seq<(Seq<char>, ExprView)>)
    ensures
        forall|k: Seq<char>|
            map_of(ps).dom().contains(k) <==> exists|i: int| 0 <= i < ps.len() && ps[i].0 == k,
    decreases ps.len(),
{
    if ps.len() > 0 {
        lemma_map_of_contains(ps.drop_last());
        assert(forall|i: int| 0 <= i < ps.len() - 1 ==> ps.drop_last()[i] == ps[i]);
        assert forall|k: Seq<char>| map_of(ps).dom().contains(k) implies exists|i: int|
            0 <= i < ps.len() && ps[i].0 == k by {
            if k == ps.last().0 {
                assert(ps[ps.len() - 1].0 == k);
            } else {
                assert(map_of(ps.drop_last()).dom().contains(k));
                let i = choose|i: int| 0 <= i < ps.drop_last().len() && ps.drop_last()[i].0 == k;
                assert(ps[i].0 == k);
            }
        }
        assert forall|k: Seq<char>| (exists|i: int| 0 <= i < ps.len() && ps[i].0 == k) implies
            map_of(ps).dom().contains(k) by {
            let i = choose|i: int| 0 <= i < ps.len() && ps[i].0 == k;
            if i < ps.len() - 1 {
                assert(0 <= i < ps.drop_last().len() && ps.drop_last()[i].0 == k);
                assert(map_of(ps.drop_last()).dom().contains(k));
            } else {
                assert(ps.last().0 == k);
            }
        }
    }
}

/// An entry with no later entry of the same name gives that name its value.
pub proof fn lemma_map_of_value(ps: Seq<(Seq<char>, ExprView)>, i: int)
    requires
        0 <= i < ps.len(),
        forall|j: int| i < j < ps.len() ==> ps[j].0 != ps[i].0,
    ensures
        map_of(ps).dom().contains(ps[i].0),
        map_of(ps)[ps[i].0] == ps[i].1,
    decreases ps.len(),
{
    if i < ps.len() - 1 {
        assert(forall|j: int| 0 <= j < ps.len() - 1 ==> ps.drop_last()[j] == ps[j]);
        lemma_map_of_value(ps.drop_last(), i);
        assert(ps.last().0 != ps[i].0);
    }
}

/// A substitution produced by matching: a mapping from meta-variable names
/// to expressions, stored as a list of bindings with pairwise distinct names.
#[derive(Debug)]
pub struct Assignment {
    bindings: Vec<(String, Expression)>,
}

impl View for Assignment {
    type V = Subst;

    closed spec fn view(&self) -> Subst {
        map_of(pair_views(self.bindings@))
    }
}

impl Assignment {
    /// The bindings carry pairwise distinct names.
    pub closed spec fn wf(&self) -> bool {
        forall|i: int, j: int|
            0 <= i < j < self.bindings@.len()
                ==> pair_views(self.bindings@)[i].0 != pair_views(self.bindings@)[j].0
    }

    /// The empty substitution.
    pub fn new() -> (r: Self)
        ensures
            r.wf(),
            r@ == Map::<Seq<char>, ExprView>::empty(),
    {
        Assignment { bindings: Vec::new() }
    }

    /// How many names the substitution binds.
    pub fn len(&self) -> (r: usize)
        requires
            self.wf(),
        ensures
            r == self@.dom().len(),
    {
        proof {
            lemma_wf_dom_len(self.bindings@);
        }
        self.bindings.len()
    }

    /// The expression bound to a name, if any.
    pub fn get(&self, name: &str) -> (r: Option<&Expression>)
        requires
            self.wf(),
        ensures
            match r {
                Some(e) => self@.dom().contains(name@) && self@[name@] == e@,
                None => !self@.dom().contains(name@),
            },
    {
        proof {
            lemma_pair_views(self.bindings@);
        }
        let owned = name.to_owned();
        let n = self.bindings.len();
        let mut i: usize = 0;
        while i < n
            invariant
                owned@ == name@,
                self.wf(),
                n == self.bindings@.len(),
                i <= n,
                pair_views(self.bindings@).len() == n,
                forall|j: int| 0 <= j < i ==> pair_views(self.bindings@)[j].0 != name@,
                forall|jj: int|
                    0 <= jj < n ==> pair_views(self.bindings@)[jj] == (
                    self.bindings@[jj].0@,
                    self.bindings@[jj].1@,
                    ),
            decreases n - i,
        {
            if self.bindings[i].0 == owned {
                proof {
                    assert(pair_views(self.bindings@)[i as int].0 == name@);
                    lemma_map_of_value(pair_views(self.bindings@), i as int);
                }
                return Some(&self.bindings[i].1);
            }
            i = i + 1;
        }
        proof {
            lemma_map_of_contains(pair_views(self.bindings@));
            assert(!self@.dom().contains(name@));
        }
        None
    }

    /// Binds a name to an expression.  A name already bound must keep its
    /// expression: the caller checks consistency before overriding.
    pub fn insert(&mut self, name: String, value: Expression)
        requires
            old(self).wf(),
            !old(self)@.dom().contains(name@) || old(self)@[name@] == value@,
        ensures
            final(self).wf(),
            final(self)@ == old(self)@.insert(name@, value@),
    {
        let ghost nv = name@;
        let ghost vv = value@;
        if self.get(name.as_str()).is_none() {
            let ghost oldb = self.bindings@;
            self.bindings.push((name, value));
            proof {
                assert(self.bindings@.drop_last() =~= oldb);
                lemma_pair_views(self.bindings@);
                lemma_pair_views(oldb);
                assert(pair_views(self.bindings@) =~= pair_views(oldb).push((nv, vv)));
                assert(pair_views(self.bindings@).drop_last() =~= pair_views(oldb));
                lemma_map_of_contains(pair_views(oldb));
                assert forall|i: int, j: int|
                    0 <= i < j < self.bindings@.len() implies pair_views(self.bindings@)[i].0
                    != pair_views(self.bindings@)[j].0 by {
                    if j == self.bindings@.len() - 1 {
                        assert(pair_views(oldb)[i].0 != nv);
                    }
                }
                assert(self@ == old(self)@.insert(nv, vv));
            }
        } else {
            proof {
                assert(self@.insert(nv, vv) =~= self@);
            }
        }
    }
}

/// Two substitutions agree wherever both bind a name.
pub open spec fn compatible(m1: Subst, m2: Subst) -> bool {
    forall|k: Seq<char>| #![auto] m1.dom().contains(k) && m2.dom().contains(k) ==> m1[k] == m2[k]
}

impl Assignment {
    /// Folds another substitution into this one.  Returns whether the two
    /// agreed on every shared name; on success this substitution becomes
    /// their union, on failure it is left well formed but unspecified.
    pub fn merge_from(&mut self, other: &Assignment) -> (ok: bool)
        requires
            old(self).wf(),
            other.wf(),
        ensures
            final(self).wf(),
            ok == compatible(old(self)@, other@),
            ok ==> final(self)@ == old(self)@.union_prefer_right(other@),
    {
        proof {
            lemma_pair_views(other.bindings@);
            lemma_map_of_contains(pair_views(other.bindings@));
        }
        let n = other.bindings.len();
        let mut i: usize = 0;
        while i < n
            invariant
                self.wf(),
                other.wf(),
                n == other.bindings@.len(),
                pair_views(other.bindings@).len() == n,
                forall|jj: int|
                    0 <= jj < n ==> pair_views(other.bindings@)[jj] == (
                    other.bindings@[jj].0@,
                    other.bindings@[jj].1@,
                    ),
                forall|k: Seq<char>|
                    other@.dom().contains(k) <==> exists|jj: int|
                        0 <= jj < n && pair_views(other.bindings@)[jj].0 == k,
                i <= n,
                self@.dom() =~= old(self)@.dom().union(
                    Set::new(
                        |k: Seq<char>|
                            exists|j: int| 0 <= j < i && pair_views(other.bindings@)[j].0 == k,
                    ),
                ),
                forall|k: Seq<char>| #![auto]
                    old(self)@.dom().contains(k) ==> self@.dom().contains(k) && self@[k] == old(
                        self,
                    )@[k],
                forall|j: int| #![auto]
                    0 <= j < i ==> self@.dom().contains(pair_views(other.bindings@)[j].0)
                        && self@[pair_views(other.bindings@)[j].0] == pair_views(
                        other.bindings@,
                    )[j].1,
                forall|j: int| #![auto]
                    0 <= j < i && old(self)@.dom().contains(pair_views(other.bindings@)[j].0)
                        ==> old(self)@[pair_views(other.bindings@)[j].0] == pair_views(
                        other.bindings@,
                    )[j].1,
            decreases n - i,
        {
            let key = &other.bindings[i].0;
            let value = &other.bindings[i].1;
            proof {
                assert(pair_views(other.bindings@)[i as int] == (key@, value@));
                lemma_map_of_value(pair_views(other.bindings@), i as int);
                assert(other@[key@] == value@);
            }
            let existing = self.get(key.as_str());
            match existing {
                Some(existing_value) => {
                    let same = *existing_value == *value;
                    if !same {
                        proof {
                            if old(self)@.dom().contains(key@) {
                                assert(self@[key@] == old(self)@[key@]);
                                assert(!compatible(old(self)@, other@));
                            } else {
                                let j = choose|j: int|
                                    0 <= j < i && pair_views(other.bindings@)[j].0 == key@;
                                assert(pair_views(other.bindings@)[j].0 == pair_views(
                                    other.bindings@,
                                )[i as int].0);
                                assert(false);
                            }
                        }
                        return false;
                    }
                    proof {
                        assert(self@.dom() =~= self@.insert(key@, value@).dom());
                    }
                },
                None => {
                },
            }
            let ghost prevm = self@;
            self.insert(key.clone(), value.clone());
            proof {
                assert(self@ == prevm.insert(key@, value@));
                assert(self@.dom() =~= old(self)@.dom().union(
                    Set::new(
                        |k: Seq<char>|
                            exists|j: int|
                                0 <= j < i + 1 && pair_views(other.bindings@)[j].0 == k,
                    ),
                ));
            }
            i = i + 1;
        }
        proof {
            assert forall|k: Seq<char>| #![auto]
                old(self)@.dom().contains(k) && other@.dom().contains(k) implies old(self)@[k]
                == other@[k] by {
                let j = choose|j: int| 0 <= j < n && pair_views(other.bindings@)[j].0 == k;
                lemma_map_of_value(pair_views(other.bindings@), j);
            }
            assert(compatible(old(self)@, other@));
            assert forall|k: Seq<char>| #![auto] self@.dom().contains(k) implies old(self)@.union_prefer_right(
                other@,
            ).dom().contains(k) && self@[k] == old(self)@.union_prefer_right(other@)[k] by {
                if other@.dom().contains(k) {
                    let j = choose|j: int| 0 <= j < n && pair_views(other.bindings@)[j].0 == k;
                    lemma_map_of_value(pair_views(other.bindings@), j);
                    assert(self@[k] == other@[k]);
                }
            }
            assert(self@ =~= old(self)@.union_prefer_right(other@));
        }
        true
    }
}

/// With pairwise distinct names, a binding list's map binds exactly as many
/// names as it has entries.
pub proof fn lemma_wf_dom_len(s: Seq<(String, Expression)>)
    requires
        forall|i: int, j: int|
            0 <= i < j < s.len() ==> pair_views(s)[i].0 != pair_views(s)[j].0,
    ensures
        map_of(pair_views(s)).dom().len() == s.len(),
        map_of(pair_views(s)).dom().finite(),
    decreases s.len(),
{
    lemma_pair_views(s);
    if s.len() == 0 {
        assert(map_of(pair_views(s)).dom() =~= Set::<Seq<char>>::empty());
    } else {
        lemma_pair_views(s.drop_last());
        assert(forall|i: int| 0 <= i < s.len() - 1 ==> s.drop_last()[i] == s[i]);
        assert forall|i: int, j: int|
            0 <= i < j < s.drop_last().len() implies pair_views(s.drop_last())[i].0 != pair_views(
            s.drop_last(),
        )[j].0 by {
            assert(pair_views(s.drop_last())[i] == (s[i].0@, s[i].1@));
            assert(pair_views(s.drop_last())[j] == (s[j].0@, s[j].1@));
            assert(pair_views(s)[i] == (s[i].0@, s[i].1@));
            assert(pair_views(s)[j] == (s[j].0@, s[j].1@));
        }
        lemma_wf_dom_len(s.drop_last());
        lemma_map_of_contains(pair_views(s.drop_last()));
        assert(pair_views(s).drop_last() =~= pair_views(s.drop_last()));
        assert(map_of(pair_views(s)) == map_of(pair_views(s.drop_last())).insert(
            pair_views(s).last().0,
            pair_views(s).last().1,
        ));
        assert(!map_of(pair_views(s.drop_last())).dom().contains(pair_views(s).last().0));
        assert(map_of(pair_views(s)).dom() =~= map_of(pair_views(s.drop_last())).dom().insert(
            pair_views(s).last().0,
        ));
    }
}

impl Clone for Assignment {
    fn clone(&self) -> (r: Self)
        ensures
            r@ == self@,
            r.wf() == self.wf(),
    {
        let n = self.bindings.len();
        let mut bindings: Vec<(String, Expression)> = Vec::new();
        let mut i: usize = 0;
        while i < n
            invariant
                n == self.bindings@.len(),
                i <= n,
                bindings@.len() == i as int,
                forall|j: int|
                    0 <= j < i ==> bindings@[j].0@ == self.bindings@[j].0@ && bindings@[j].1@
                        == self.bindings@[j].1@,
            decreases n - i,
        {
            let (k, v) = (&self.bindings[i].0, &self.bindings[i].1);
            bindings.push((k.clone(), v.clone()));
            i = i + 1;
        }
        let r = Assignment { bindings };
        proof {
            lemma_pair_views(r.bindings@);
            lemma_pair_views(self.bindings@);
            assert(pair_views(r.bindings@) =~= pair_views(self.bindings@));
        }
        r
    }
}

impl Expression {
    /// Replaces every meta-variable bound by the assignment with its image;
    /// other nodes keep their tag and substitute into each child.
    pub fn apply_assignment(&self, assignment: &Assignment) -> (r: Expression)
        requires
            assignment.wf(),
        ensures
            r@ == apply_subst(self@, assignment@),
        decreases *self,
    {
        match &self.t {
            NodeType::MetaVar(x) => match assignment.get(x.as_str()) {
                Some(expr) => expr.clone(),
                None => self.clone(),
            },
            _ => {
                let n = self.children.len();
                let mut children: Vec<Expression> = Vec::new();
                let mut i: usize = 0;
                while i < n
                    invariant
                        assignment.wf(),
                        n == self.children@.len(),
                        i <= n,
                        children@.len() == i as int,
                        forall|j: int|
                            0 <= j < i ==> children@[j]@ == apply_subst(
                                self.children@[j]@,
                                assignment@,
                            ),
                    decreases n - i,
                {
                    let c = self.children[i].apply_assignment(assignment);
                    children.push(c);
                    i = i + 1;
                }
                let r = Expression { t: self.t.clone(), children };
                proof {
                    lemma_views_of_exprs(r.children@);
                    lemma_views_of_exprs(self.children@);
                    lemma_apply_subst_seq(self@.children, assignment@);
                    assert(!(self@.t is MetaVar));
                    assert(r@.children =~= apply_subst_seq(self@.children, assignment@));
                    assert(r@ =~= apply_subst(self@, assignment@));
                }
                r
            },
        }
    }
}


/// The substitution by which a pattern matches a subject, if any: a
/// meta-variable binds the whole subject; any other pattern node must carry
/// the subject's tag and arity, and the child substitutions must agree on
/// every shared name.
pub open spec fn spec_match(p: ExprView, e: ExprView) -> Option<Subst>
    decreases p, 1int,
{
    match p.t {
        TagView::MetaVar(x) => Some(Map::<Seq<char>, ExprView>::empty().insert(x, e)),
        _ => {
            if p.t == e.t && p.children.len() == e.children.len() {
                match_children(p.children, e.children)
            } else {
                None
            }
        },
    }
}

/// Child-wise matching, merged left to right; inconsistent bindings fail.
pub open spec fn match_children(ps: Seq<ExprView>, es: Seq<ExprView>) -> Option<Subst>
    decreases ps, 0int,
{
    if ps.len() == 0 {
        Some(Map::empty())
    } else {
        match match_children(ps.drop_last(), es.drop_last()) {
            None => None,
            Some(m) => match spec_match(ps.last(), es.last()) {
                None => None,
                Some(cm) => if compatible(m, cm) {
                    Some(m.union_prefer_right(cm))
                } else {
                    None
                },
            },
        }
    }
}

/// A failed child prefix fails the whole child-wise match.
pub proof fn lemma_match_children_none(ps: Seq<ExprView>, es: Seq<ExprView>, t: int)
    requires
        0 <= t <= ps.len(),
        ps.len() == es.len(),
        match_children(ps.subrange(0, t), es.subrange(0, t)) is None,
    ensures
        match_children(ps, es) is None,
    decreases ps.len() - t,
{
    if t < ps.len() {
        assert(ps.subrange(0, t + 1).drop_last() =~= ps.subrange(0, t));
        assert(es.subrange(0, t + 1).drop_last() =~= es.subrange(0, t));
        lemma_match_children_none(ps, es, t + 1);
    } else {
        assert(ps.subrange(0, t) =~= ps);
        assert(es.subrange(0, t) =~= es);
    }
}

/// Substituting with either of two maps that agree on a pattern's
/// meta-variables gives the same expression.
pub proof fn lemma_apply_agree(p: ExprView, m1: Subst, m2: Subst)
    requires
        forall|x: Seq<char>|
            #[trigger] metavars(p).contains(x) ==> (m1.dom().contains(x) == m2.dom().contains(x)
                && (m1.dom().contains(x) ==> m1[x] == m2[x])),
    ensures
        apply_subst(p, m1) == apply_subst(p, m2),
    decreases p,
{
    match p.t {
        TagView::MetaVar(x) => {
            assert(metavars(p).contains(x));
        },
        _ => {
            lemma_apply_subst_seq(p.children, m1);
            lemma_apply_subst_seq(p.children, m2);
            assert forall|j: int| 0 <= j < p.children.len() implies apply_subst(
                #[trigger] p.children[j],
                m1,
            ) == apply_subst(p.children[j], m2) by {
                assert forall|x: Seq<char>| #[trigger] metavars(p.children[j]).contains(
                    x,
                ) implies (m1.dom().contains(x) == m2.dom().contains(x) && (m1.dom().contains(x)
                    ==> m1[x] == m2[x])) by {
                    lemma_metavars_of_seq_member(p.children, j, x);
                    assert(metavars(p).contains(x));
                }
                lemma_apply_agree(p.children[j], m1, m2);
            }
            assert(apply_subst_seq(p.children, m1) =~= apply_subst_seq(p.children, m2));
            assert(apply_subst(p, m1) =~= apply_subst(p, m2));
        },
    }
}

/// A child's meta-variables are among the sequence's.
pub proof fn lemma_metavars_of_seq_member(s: Seq<ExprView>, j: int, x: Seq<char>)
    requires
        0 <= j < s.len(),
        metavars(s[j]).contains(x),
    ensures
        metavars_of_seq(s).contains(x),
    decreases s.len(),
{
    if j < s.len() - 1 {
        assert(s.drop_last()[j] == s[j]);
        lemma_metavars_of_seq_member(s.drop_last(), j, x);
    } else {
        assert(s[j] == s.last());
    }
}

/// A successful match binds exactly the pattern's meta-variables, and
/// substituting it into the pattern rebuilds the subject.
pub proof fn lemma_match_sound(p: ExprView, e: ExprView, m: Subst)
    requires
        spec_match(p, e) == Some(m),
    ensures
        m.dom() =~= metavars(p),
        apply_subst(p, m) == e,
    decreases p, 1int,
{
    match p.t {
        TagView::MetaVar(x) => {
            assert(m =~= Map::<Seq<char>, ExprView>::empty().insert(x, e));
        },
        _ => {
            lemma_match_children_sound(p.children, e.children, m);
            lemma_apply_subst_seq(p.children, m);
            assert(apply_subst(p, m).children =~= e.children);
            assert(apply_subst(p, m) =~= e);
        },
    }
}

/// Child-wise soundness: a successful merge binds exactly the children's
/// meta-variables and rebuilds each child subject.
pub proof fn lemma_match_children_sound(ps: Seq<ExprView>, es: Seq<ExprView>, m: Subst)
    requires
        ps.len() == es.len(),
        match_children(ps, es) == Some(m),
    ensures
        m.dom() =~= metavars_of_seq(ps),
        forall|j: int| 0 <= j < ps.len() ==> apply_subst(#[trigger] ps[j], m) == es[j],
    decreases ps, 0int,
{
    if ps.len() > 0 {
        let mpre = match_children(ps.drop_last(), es.drop_last()).unwrap();
        let mlast = spec_match(ps.last(), es.last()).unwrap();
        lemma_match_children_sound(ps.drop_last(), es.drop_last(), mpre);
        lemma_match_sound(ps.last(), es.last(), mlast);
        assert(m == mpre.union_prefer_right(mlast));
        assert(m.dom() =~= metavars_of_seq(ps));
        assert forall|j: int| 0 <= j < ps.len() implies apply_subst(#[trigger] ps[j], m)
            == es[j] by {
            if j < ps.len() - 1 {
                assert(ps.drop_last()[j] == ps[j] && es.drop_last()[j] == es[j]);
                assert(apply_subst(ps[j], mpre) == es[j]);
                assert forall|x: Seq<char>| #[trigger] metavars(ps[j]).contains(x) implies (
                mpre.dom().contains(x) == m.dom().contains(x) && (mpre.dom().contains(x)
                    ==> mpre[x] == m[x])) by {
                    lemma_metavars_of_seq_member(ps.drop_last(), j, x);
                    if mlast.dom().contains(x) {
                        assert(mpre[x] == mlast[x]);
                    }
                }
                lemma_apply_agree(ps[j], mpre, m);
            } else {
                assert(apply_subst(ps.last(), mlast) == es.last());
                assert forall|x: Seq<char>| #[trigger] metavars(ps.last()).contains(x) implies (
                mlast.dom().contains(x) == m.dom().contains(x) && (mlast.dom().contains(x)
                    ==> mlast[x] == m[x])) by {
                }
                lemma_apply_agree(ps.last(), mlast, m);
            }
        }
    }
}

/// The expression that a map completes a name to: the bound expression, or
/// the bare meta-variable when the map leaves the name free.
pub open spec fn completed(m: Subst, x: Seq<char>) -> ExprView {
    if m.dom().contains(x) {
        m[x]
    } else {
        ExprView { t: TagView::MetaVar(x), children: Seq::empty() }
    }
}

/// Matching is complete: whenever some substitution turns the pattern into
/// the subject, the match succeeds, and it binds each meta-variable to what
/// that substitution completes it to.
pub proof fn lemma_apply_matches(p: ExprView, e: ExprView, m: Subst)
    requires
        wf_arity(p),
        apply_subst(p, m) == e,
    ensures
        spec_match(p, e) is Some,
        spec_match(p, e).unwrap().dom() =~= metavars(p),
        forall|x: Seq<char>|
            metavars(p).contains(x) ==> #[trigger] spec_match(p, e).unwrap()[x] == completed(m, x),
    decreases p, 1int,
{
    match p.t {
        TagView::MetaVar(x) => {
            if m.dom().contains(x) {
                assert(spec_match(p, e).unwrap()[x] == m[x]);
            } else {
                assert(e == p);
                assert(p.children =~= Seq::<ExprView>::empty());
                assert(e =~= (ExprView { t: TagView::MetaVar(x), children: Seq::empty() }));
            }
        },
        _ => {
            lemma_apply_subst_seq(p.children, m);
            assert(e.t == p.t);
            assert(e.children.len() == p.children.len());
            assert(forall|j: int|
                0 <= j < p.children.len() ==> wf_arity(#[trigger] p.children[j]));
            lemma_apply_matches_children(p.children, e.children, m);
        },
    }
}

/// Child-wise completeness: child matches exist and merge consistently,
/// since every binding is what the one substitution completes it to.
pub proof fn lemma_apply_matches_children(ps: Seq<ExprView>, es: Seq<ExprView>, m: Subst)
    requires
        forall|j: int| 0 <= j < ps.len() ==> wf_arity(#[trigger] ps[j]),
        ps.len() == es.len(),
        forall|j: int| 0 <= j < ps.len() ==> apply_subst(#[trigger] ps[j], m) == es[j],
    ensures
        match_children(ps, es) is Some,
        match_children(ps, es).unwrap().dom() =~= metavars_of_seq(ps),
        forall|x: Seq<char>|
            metavars_of_seq(ps).contains(x) ==> #[trigger] match_children(ps, es).unwrap()[x]
                == completed(m, x),
    decreases ps, 0int,
{
    if ps.len() > 0 {
        assert(forall|j: int|
            0 <= j < ps.len() - 1 ==> ps.drop_last()[j] == ps[j] && es.drop_last()[j] == es[j]);
        assert(forall|j: int|
            0 <= j < ps.drop_last().len() ==> wf_arity(#[trigger] ps.drop_last()[j]));
        lemma_apply_matches_children(ps.drop_last(), es.drop_last(), m);
        let mpre = match_children(ps.drop_last(), es.drop_last()).unwrap();
        assert(apply_subst(ps.last(), m) == es.last());
        lemma_apply_matches(ps.last(), es.last(), m);
        let mlast = spec_match(ps.last(), es.last()).unwrap();
        assert forall|x: Seq<char>|
            mpre.dom().contains(x) && mlast.dom().contains(x) implies mpre[x] == mlast[x] by {
            assert(mpre[x] == completed(m, x));
            assert(mlast[x] == completed(m, x));
        }
        assert(compatible(mpre, mlast));
        assert(match_children(ps, es).unwrap().dom() =~= metavars_of_seq(ps));
    }
}

/// A pattern matches a subject exactly when some substitution over the
/// pattern's meta-variables turns the pattern into the subject: the match
/// result is such a substitution, and a failed match rules every
/// substitution out.
pub proof fn lemma_match_iff_apply(p: ExprView, e: ExprView)
    requires
        wf_arity(p),
    ensures
        spec_match(p, e) is Some ==> {
            let s = spec_match(p, e).unwrap();
            s.dom() =~= metavars(p) && apply_subst(p, s) == e
        },
        spec_match(p, e) is None ==> forall|m: Subst| apply_subst(p, m) != e,
{
    if spec_match(p, e) is Some {
        lemma_match_sound(p, e, spec_match(p, e).unwrap());
    } else {
        assert forall|m: Subst| apply_subst(p, m) != e by {
            if apply_subst(p, m) == e {
                lemma_apply_matches(p, e, m);
            }
        }
    }
}

impl Expression {
    /// The substitution by which this pattern matches the subject, if any.
    /// A meta-variable binds the whole subject; any other node must carry
    /// the subject's tag and arity, and child matches must bind every
    /// shared meta-variable to structurally equal expressions.
    pub fn structural_match(&self, expression: &Expression) -> (r: Option<Assignment>)
        ensures
            match r {
                Some(a) => a.wf() && spec_match(self@, expression@) == Some(a@),
                None => spec_match(self@, expression@) is None,
            },
        decreases *self,
    {
        match &self.t {
            NodeType::MetaVar(x) => {
                let mut map = Assignment::new();
                map.insert(x.clone(), expression.clone());
                Some(map)
            },
            _ => {
                proof {
                    lemma_views_of_exprs(self.children@);
                    lemma_views_of_exprs(expression.children@);
                    assert(!(self@.t is MetaVar));
                }
                if !(self.t == expression.t) {
                    return None;
                }
                if self.children.len() != expression.children.len() {
                    return None;
                }
                let ghost ps = self@.children;
                let ghost es = expression@.children;
                let n = self.children.len();
                let mut assignment = Assignment::new();
                let mut j: usize = 0;
                proof {
                    assert(ps.subrange(0, 0) =~= Seq::<ExprView>::empty());
                    assert(es.subrange(0, 0) =~= Seq::<ExprView>::empty());
                    assert(match_children(ps.subrange(0, 0), es.subrange(0, 0)) == Some(
                        assignment@,
                    ));
                }
                while j < n
                    invariant
                        ps == self@.children,
                        es == expression@.children,
                        self@.t == expression@.t,
                        !(self@.t is MetaVar),
                        n == self.children@.len(),
                        n == expression.children@.len(),
                        n == ps.len(),
                        n == es.len(),
                        forall|x: int| 0 <= x < n ==> self.children@[x]@ == ps[x],
                        forall|x: int| 0 <= x < n ==> expression.children@[x]@ == es[x],
                        j <= n,
                        assignment.wf(),
                        match_children(ps.subrange(0, j as int), es.subrange(0, j as int))
                            == Some(assignment@),
                    decreases n - j,
                {
                    proof {
                        assert(ps.subrange(0, j as int + 1).drop_last() =~= ps.subrange(
                            0,
                            j as int,
                        ));
                        assert(es.subrange(0, j as int + 1).drop_last() =~= es.subrange(
                            0,
                            j as int,
                        ));
                        assert(ps.subrange(0, j as int + 1).last() == ps[j as int]);
                        assert(es.subrange(0, j as int + 1).last() == es[j as int]);
                        assert(decreases_to!(*self => self.children@[j as int]));
                    }
                    let ghost acc_before = assignment@;
                    match self.children[j].structural_match(&expression.children[j]) {
                        Some(child_assignment) => {
                            let ok = assignment.merge_from(&child_assignment);
                            if !ok {
                                proof {
                                    assert(match_children(
                                        ps.subrange(0, j as int),
                                        es.subrange(0, j as int),
                                    ) == Some(acc_before));
                                    assert(!compatible(acc_before, child_assignment@));
                                }
                                proof {
                                    assert(match_children(
                                        ps.subrange(0, j as int + 1),
                                        es.subrange(0, j as int + 1),
                                    ) is None);
                                    lemma_match_children_none(ps, es, j as int + 1);
                                    assert(spec_match(self@, expression@) is None);
                                }
                                return None;
                            }
                        },
                        None => {
                            proof {
                                assert(spec_match(ps[j as int], es[j as int]) is None);
                                assert(match_children(
                                    ps.subrange(0, j as int + 1),
                                    es.subrange(0, j as int + 1),
                                ) is None);
                                lemma_match_children_none(ps, es, j as int + 1);
                                assert(spec_match(self@, expression@) is None);
                            }
                            return None;
                        },
                    }
                    j = j + 1;
                }
                proof {
                    assert(ps.subrange(0, n as int) =~= ps);
                    assert(es.subrange(0, n as int) =~= es);
                }
                Some(assignment)
            },
        }
    }
}

} // verus!
