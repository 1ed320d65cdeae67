//! Patterns: operator trees with named wildcard leaves, and the recursive
//! matcher that enumerates the consistent bindings of a pattern against an
//! e-class.

use vstd::prelude::*;

use itertools::Itertools;

verus! {

use crate::Id;
use crate::expr::{ENode, ENodeV, QuestionMarkName, RecExpr};
use crate::egraph::{EGraph, EGraphV};
use crate::wildmap::{WildMap, WildMapV, wm_get, wm_has, wm_wf};

/// An operator node of a pattern: an operator applied to sub-patterns.
#[derive(Debug, PartialEq)]
pub struct PatternExpr {
    pub op: String,
    pub children: Vec<Pattern>,
}

/// A pattern: an operator tree whose leaves may be named wildcards.
#[derive(Debug, PartialEq)]
pub enum Pattern {
    Expr(PatternExpr),
    Wildcard(QuestionMarkName),
}

/// The mathematical value of a pattern.
pub enum PatternV {
    Expr { op: Seq<char>, children: Seq<PatternV> },
    Wildcard { name: Seq<char> },
}

/// The view of a pattern.
pub open spec fn pattern_view(p: Pattern) -> PatternV
    decreases p,
    via pattern_view_dec
{
    match p {
        Pattern::Wildcard(w) => PatternV::Wildcard { name: w@ },
        Pattern::Expr(e) => PatternV::Expr { op: e.op@, children: patterns_view(e.children@) },
    }
}

#[via_fn]
proof fn pattern_view_dec(p: Pattern) {
    match p {
        Pattern::Expr(e) => {
            assert(decreases_to!(p => e));
            assert(decreases_to!(e => e.children));
            assert(decreases_to!(e.children => e.children@));
        },
        _ => {},
    }
}

/// The views of a sequence of patterns.
pub open spec fn patterns_view(s: Seq<Pattern>) -> Seq<PatternV>
    decreases s,
{
    if s.len() == 0 {
        Seq::empty()
    } else {
        seq![pattern_view(s[0])] + patterns_view(s.drop_first())
    }
}

/// `patterns_view` maps pointwise.
pub proof fn lemma_patterns_view(s: Seq<Pattern>)
    ensures
        patterns_view(s).len() == s.len(),
        forall|i: int| 0 <= i < s.len() ==> patterns_view(s)[i] == #[trigger] s[i]@,
    decreases s.len(),
{
    if s.len() > 0 {
        lemma_patterns_view(s.drop_first());
        assert forall|i: int| 0 <= i < s.len() implies patterns_view(s)[i] == #[trigger] s[i]@ by {
            if i > 0 {
                assert(s.drop_first()[i - 1] == s[i]);
            }
        }
    }
}

impl View for Pattern {
    type V = PatternV;

    open spec fn view(&self) -> PatternV {
        pattern_view(*self)
    }
}

/// Whether the wildcard named `w` occurs in `p`.
pub open spec fn has_wildcard(p: PatternV, w: Seq<char>) -> bool
    decreases p,
{
    match p {
        PatternV::Wildcard { name } => name == w,
        PatternV::Expr { op, children } => exists|i: int|
            0 <= i < children.len() && has_wildcard(#[trigger] children[i], w),
    }
}

/// Whether `m` binds every wildcard of `p`.
pub open spec fn covers(m: WildMapV, p: PatternV) -> bool {
    forall|w: Seq<char>| #[trigger] has_wildcard(p, w) ==> wm_has(m, w)
}


/// Bridge between a pattern's exec representation and its view.
pub proof fn lemma_view_expr(p: Pattern)
    requires
        p is Expr,
    ensures
        p@ is Expr,
        p@->Expr_op == p->Expr_0.op@,
        p@->Expr_children.len() == p->Expr_0.children@.len(),
        forall|i: int|
            0 <= i < p->Expr_0.children@.len() ==> p@->Expr_children[i] == #[trigger] p->Expr_0
                .children@[i]@,
{
    lemma_patterns_view(p->Expr_0.children@);
}

/// A pattern is structurally larger than any child of its root.
pub proof fn lemma_child_decreases(p: Pattern, i: int)
    requires
        p is Expr,
        0 <= i < p->Expr_0.children@.len(),
    ensures
        decreases_to!(p => p->Expr_0.children@[i]),
{
    let pe = p->Expr_0;
    assert(decreases_to!(p => pe));
    assert(decreases_to!(pe => pe.children));
    assert(decreases_to!(pe.children => pe.children[i]));
}

impl Clone for Pattern {
    #[verifier::loop_isolation(false)]
    fn clone(&self) -> (r: Self)
        ensures
            r@ == self@,
        decreases self,
    {
        match self {
            Pattern::Wildcard(w) => Pattern::Wildcard(w.clone()),
            Pattern::Expr(e) => {
                let mut children: Vec<Pattern> = Vec::new();
                let mut i: usize = 0;
                while i < e.children.len()
                    invariant
                        i <= e.children.len(),
                        children@.len() == i as int,
                        forall|j: int| 0 <= j < i ==> children@[j]@ == e.children@[j]@,
                    decreases e.children.len() - i,
                {
                    proof {
                        assert(*e == self->Expr_0);
                        lemma_child_decreases(*self, i as int);
                    }
                    let c = e.children[i].clone();
                    children.push(c);
                    i += 1;
                }
                let r = Pattern::Expr(PatternExpr { op: e.op.clone(), children });
                proof {
                    assert(*e == self->Expr_0);
                    lemma_view_expr(*self);
                    lemma_view_expr(r);
                    let rv = r@->Expr_children;
                    let sv = self@->Expr_children;
                    assert forall|j: int| 0 <= j < rv.len() implies rv[j] == sv[j] by {
                        assert(rv[j] == children@[j]@);
                        assert(sv[j] == e.children@[j]@);
                    }
                    assert(rv =~= sv);
                }
                r
            },
        }
    }
}

impl Pattern {
    /// A wildcard-free pattern with the same tree as the ground term `e`.
    #[verifier::loop_isolation(false)]
    pub fn from_expr(e: &RecExpr) -> (r: Self)
        ensures
            r@ == pattern_of_term(*e),
        decreases *e,
    {
        let mut children: Vec<Pattern> = Vec::new();
        let mut i: usize = 0;
        while i < e.children.len()
            invariant
                i <= e.children.len(),
                children@.len() == i as int,
                forall|j: int| 0 <= j < i ==> children@[j]@ == pattern_of_term(e.children@[j]),
            decreases e.children.len() - i,
        {
            proof {
                assert(decreases_to!(*e => e.children));
                assert(decreases_to!(e.children => e.children[i as int]));
            }
            let c = Pattern::from_expr(&e.children[i]);
            children.push(c);
            i += 1;
        }
        let r = Pattern::Expr(PatternExpr { op: e.op.clone(), children });
        proof {
            lemma_view_expr(r);
            lemma_terms_to_patterns(e.children@);
            let rv = r@->Expr_children;
            let sv = pattern_of_term(*e)->Expr_children;
            assert forall|j: int| 0 <= j < rv.len() implies rv[j] == sv[j] by {
                assert(rv[j] == children@[j]@);
                assert(sv[j] == pattern_of_term(e.children@[j]));
            }
            assert(rv =~= sv);
        }
        r
    }

    /// Add every wildcard of this pattern to `set`.
    #[verifier::loop_isolation(false)]
    pub(crate) fn insert_wildcards(&self, set: &mut WildcardSet)
        ensures
            forall|w: Seq<char>|
                #[trigger] final(set)@.contains(w) ==> old(set)@.contains(w) || has_wildcard(
                    self@,
                    w,
                ),
            forall|w: Seq<char>| #[trigger] old(set)@.contains(w) ==> final(set)@.contains(w),
            forall|w: Seq<char>| #[trigger] has_wildcard(self@, w) ==> final(set)@.contains(w),
        decreases *self,
    {
        match self {
            Pattern::Wildcard(w) => {
                let wc = w.clone();
                let ghost wcv = wc@;
                set.insert_name(wc);
                proof {
                    assert(wcv == w@);
                    assert(has_wildcard(self@, w@));
                    assert(forall|x: Seq<char>| #[trigger] has_wildcard(self@, x) ==> x == w@);
                }
            },
            Pattern::Expr(e) => {
                proof {
                    assert(*e == self->Expr_0);
                    lemma_view_expr(*self);
                }
                let ghost pre = set@;
                let mut i: usize = 0;
                while i < e.children.len()
                    invariant
                        i <= e.children.len(),
                        forall|w: Seq<char>|
                            #[trigger] set@.contains(w) ==> pre.contains(w) || exists|j: int|
                                0 <= j < i && has_wildcard(#[trigger] self@->Expr_children[j], w),
                        forall|w: Seq<char>| #[trigger] pre.contains(w) ==> set@.contains(w),
                        forall|w: Seq<char>, j: int|
                            0 <= j < i && #[trigger] has_wildcard(self@->Expr_children[j], w)
                                ==> set@.contains(w),
                    decreases e.children.len() - i,
                {
                    proof {
                        lemma_child_decreases(*self, i as int);
                        assert(self@->Expr_children[i as int] == e.children@[i as int]@);
                    }
                    let ghost mid = set@;
                    e.children[i].insert_wildcards(set);
                    proof {
                        assert forall|w: Seq<char>| #[trigger] set@.contains(w) implies
                            pre.contains(w) || exists|j: int|
                            0 <= j < i + 1 && has_wildcard(
                                #[trigger] self@->Expr_children[j],
                                w,
                            ) by {
                            if !mid.contains(w) {
                                assert(has_wildcard(self@->Expr_children[i as int], w));
                            } else {
                                if !pre.contains(w) {
                                    let j = choose|j: int|
                                        0 <= j < i && has_wildcard(
                                            #[trigger] self@->Expr_children[j],
                                            w,
                                        );
                                    assert(has_wildcard(self@->Expr_children[j], w));
                                }
                            }
                        }
                        assert forall|w: Seq<char>, j: int|
                            0 <= j < i + 1 && #[trigger] has_wildcard(
                                self@->Expr_children[j],
                                w,
                            ) implies set@.contains(w) by {
                            if j < i {
                                assert(mid.contains(w));
                            } else {
                                assert(has_wildcard(e.children@[i as int]@, w));
                            }
                        }
                    }
                    i += 1;
                }
                proof {
                    assert forall|w: Seq<char>| #[trigger] has_wildcard(self@, w) implies
                        set@.contains(w) by {
                        let j = choose|j: int|
                            0 <= j < self@->Expr_children.len() && has_wildcard(
                                #[trigger] self@->Expr_children[j],
                                w,
                            );
                        assert(has_wildcard(self@->Expr_children[j], w));
                    }
                    assert forall|w: Seq<char>| #[trigger] set@.contains(w) implies pre.contains(w)
                        || has_wildcard(self@, w) by {
                        if !pre.contains(w) {
                            let j = choose|j: int|
                                0 <= j < i && has_wildcard(#[trigger] self@->Expr_children[j], w);
                            assert(has_wildcard(self@, w));
                        }
                    }
                }
            },
        }
    }

    /// Whether every wildcard of this pattern is in `set`.
    #[verifier::loop_isolation(false)]
    pub(crate) fn is_bound(&self, set: &WildcardSet) -> (r: bool)
        ensures
            r == (forall|w: Seq<char>| #[trigger] has_wildcard(self@, w) ==> set@.contains(w)),
        decreases *self,
    {
        match self {
            Pattern::Wildcard(w) => {
                let r = set.contains_name(w);
                proof {
                    assert(has_wildcard(self@, w@));
                }
                r
            },
            Pattern::Expr(e) => {
                let mut i: usize = 0;
                while i < e.children.len()
                    invariant
                        i <= e.children.len(),
                        forall|w: Seq<char>, j: int|
                            0 <= j < i && #[trigger] has_wildcard(self@->Expr_children[j], w)
                                ==> set@.contains(w),
                    decreases e.children.len() - i,
                {
                    proof {
                        assert(*e == self->Expr_0);
                        lemma_child_decreases(*self, i as int);
                        lemma_view_expr(*self);
                        assert(self@->Expr_children[i as int] == e.children@[i as int]@);
                    }
                    let ok = e.children[i].is_bound(set);
                    if !ok {
                        proof {
                            let w = choose|w: Seq<char>|
                                has_wildcard(self@->Expr_children[i as int], w)
                                    && !set@.contains(w);
                            assert(has_wildcard(self@, w));
                        }
                        return false;
                    }
                    i += 1;
                }
                proof {
                    assert(*e == self->Expr_0);
                    lemma_view_expr(*self);
                    assert forall|w: Seq<char>| #[trigger] has_wildcard(self@, w) implies
                        set@.contains(w) by {
                        let j = choose|j: int|
                            0 <= j < self@->Expr_children.len() && has_wildcard(
                                self@->Expr_children[j],
                                w,
                            );
                        assert(has_wildcard(self@->Expr_children[j], w));
                    }
                }
                true
            },
        }
    }
}

/// The wildcard-free pattern denoted by a ground term.
pub open spec fn pattern_of_term(e: RecExpr) -> PatternV
    decreases e,
    via pattern_of_term_dec
{
    PatternV::Expr { op: e.op@, children: terms_to_patterns(e.children@) }
}

#[via_fn]
proof fn pattern_of_term_dec(e: RecExpr) {
    assert(decreases_to!(e => e.children));
    assert(decreases_to!(e.children => e.children@));
}

/// The wildcard-free patterns denoted by a sequence of ground terms.
pub open spec fn terms_to_patterns(s: Seq<RecExpr>) -> Seq<PatternV>
    decreases s,
{
    if s.len() == 0 {
        Seq::empty()
    } else {
        seq![pattern_of_term(s[0])] + terms_to_patterns(s.drop_first())
    }
}

/// `terms_to_patterns` maps pointwise.
pub proof fn lemma_terms_to_patterns(s: Seq<RecExpr>)
    ensures
        terms_to_patterns(s).len() == s.len(),
        forall|i: int|
            0 <= i < s.len() ==> terms_to_patterns(s)[i] == pattern_of_term(#[trigger] s[i]),
    decreases s.len(),
{
    if s.len() > 0 {
        lemma_terms_to_patterns(s.drop_first());
        assert forall|i: int| 0 <= i < s.len() implies terms_to_patterns(s)[i] == pattern_of_term(
            #[trigger] s[i],
        ) by {
            if i > 0 {
                assert(s.drop_first()[i - 1] == s[i]);
            }
        }
    }
}

/// An insertion-ordered set of wildcard names.
pub struct WildcardSet {
    vec: Vec<QuestionMarkName>,
}

impl View for WildcardSet {
    type V = Seq<Seq<char>>;

    closed spec fn view(&self) -> Seq<Seq<char>> {
        self.vec@.map_values(|w: QuestionMarkName| w@)
    }
}

impl Default for WildcardSet {
    /// The empty set.
    fn default() -> (r: Self)
        ensures
            r@ == Seq::<Seq<char>>::empty(),
    {
        let r = WildcardSet { vec: Vec::new() };
        proof {
            assert(r@ =~= Seq::<Seq<char>>::empty());
        }
        r
    }
}

impl WildcardSet {
    /// Whether `w` is in the set.
    #[verifier::loop_isolation(false)]
    pub fn contains_name(&self, w: &QuestionMarkName) -> (r: bool)
        ensures
            r == self@.contains(w@),
    {
        let mut i: usize = 0;
        while i < self.vec.len()
            invariant
                i <= self.vec.len(),
                forall|j: int| 0 <= j < i ==> self@[j] != w@,
            decreases self.vec.len() - i,
        {
            if self.vec[i] == *w {
                proof {
                    assert(self@[i as int] == w@);
                }
                return true;
            }
            i += 1;
        }
        proof {
            assert(!self@.contains(w@));
        }
        false
    }

    /// Add `w` if it is not yet present.
    pub fn insert_name(&mut self, w: QuestionMarkName)
        ensures
            forall|x: Seq<char>|
                #[trigger] final(self)@.contains(x) ==> old(self)@.contains(x) || x == w@,
            forall|x: Seq<char>| #[trigger] old(self)@.contains(x) ==> final(self)@.contains(x),
            final(self)@.contains(w@),
    {
        let present = self.contains_name(&w);
        if !present {
            let ghost pre = self@;
            self.vec.push(w);
            proof {
                assert(self@ =~= pre.push(self.vec@[pre.len() as int]@));
                assert forall|x: Seq<char>| self@.contains(x) <==> (pre.contains(x) || x
                    == self.vec@[pre.len() as int]@) by {
                    if pre.contains(x) {
                        let j = choose|j: int| 0 <= j < pre.len() && pre[j] == x;
                        assert(self@[j] == x);
                    }
                    if self@.contains(x) {
                        let j = choose|j: int| 0 <= j < self@.len() && self@[j] == x;
                        if j < pre.len() {
                            assert(pre[j] == x);
                        }
                    }
                    assert(self@[pre.len() as int] == self.vec@[pre.len() as int]@);
                }
            }
        }
    }
}

} // verus!

verus! {

/// Every id bound in `m` is an existing e-class id of `eg`.
pub open spec fn wm_in_range(eg: EGraphV, m: WildMapV) -> bool {
    forall|q: int| 0 <= q < m.len() ==> 0 <= (#[trigger] m[q]).1 < eg.n()
}

/// `m2` preserves every binding of `m1`.
pub open spec fn wm_extends(m2: WildMapV, m1: WildMapV) -> bool {
    forall|q: int| 0 <= q < m1.len() ==> wm_get(m2, (#[trigger] m1[q]).0) == Some(m1[q].1)
}

/// The pattern `p` is realizable in e-class `c` of `eg` under the binding
/// `m`: a wildcard is realizable in the class it is bound to, and an
/// operator node is realizable if some e-node of the class has the same
/// operator and arity and each sub-pattern is realizable in the
/// corresponding child class.
pub open spec fn realizes(eg: EGraphV, p: PatternV, c: int, m: WildMapV) -> bool
    decreases p,
{
    match p {
        PatternV::Wildcard { name } => wm_get(m, name) == Some(c),
        PatternV::Expr { op, children } => exists|k: int|
            0 <= k < eg.nodes.len() && eg.leaders[k] == c && (#[trigger] eg.nodes[k]).op == op
                && eg.nodes[k].children.len() == children.len() && (forall|i: int|
                0 <= i < children.len() ==> realizes(
                    eg,
                    #[trigger] children[i],
                    eg.canon(eg.nodes[k].children[i]),
                    m,
                )),
    }
}

/// A binding the matcher may return for `p` at class `c`: well formed, in
/// range, binding exactly the wildcards of `p` (no others), and witnessing
/// the match.
pub open spec fn good_mapping(eg: EGraphV, p: PatternV, c: int, m: WildMapV) -> bool {
    &&& wm_wf(m)
    &&& wm_in_range(eg, m)
    &&& covers(m, p)
    &&& wm_keys_in(m, p)
    &&& realizes(eg, p, c, m)
}

/// A wildcard of a child is a wildcard of the whole operator pattern.
pub proof fn lemma_has_wildcard_child(p: PatternV, i: int, w: Seq<char>)
    requires
        p is Expr,
        0 <= i < p->Expr_children.len(),
        has_wildcard(p->Expr_children[i], w),
    ensures
        has_wildcard(p, w),
{
}

/// Realizability only reads the bindings of `m1`, so any extension of
/// `m1` realizes the same patterns.
pub proof fn lemma_realizes_extend(eg: EGraphV, p: PatternV, c: int, m1: WildMapV, m2: WildMapV)
    requires
        realizes(eg, p, c, m1),
        wm_extends(m2, m1),
    ensures
        realizes(eg, p, c, m2),
    decreases p,
{
    match p {
        PatternV::Wildcard { name } => {
            crate::wildmap::lemma_wm_get_some_exists(m1, name);
            let q = choose|q: int| 0 <= q < m1.len() && #[trigger] m1[q] == (name, c);
            assert(wm_get(m2, m1[q].0) == Some(m1[q].1));
        },
        PatternV::Expr { op, children } => {
            let k = choose|k: int|
                0 <= k < eg.nodes.len() && eg.leaders[k] == c && (#[trigger] eg.nodes[k]).op == op
                    && eg.nodes[k].children.len() == children.len() && (forall|i: int|
                    0 <= i < children.len() ==> realizes(
                        eg,
                        #[trigger] children[i],
                        eg.canon(eg.nodes[k].children[i]),
                        m1,
                    ));
            assert forall|i: int| 0 <= i < children.len() implies realizes(
                eg,
                #[trigger] children[i],
                eg.canon(eg.nodes[k].children[i]),
                m2,
            ) by {
                lemma_realizes_extend(eg, children[i], eg.canon(eg.nodes[k].children[i]), m1, m2);
            }
            assert(eg.nodes[k].op == op);
        },
    }
}

/// Coverage carries over to any extension of the binding.
pub proof fn lemma_covers_extend(p: PatternV, m1: WildMapV, m2: WildMapV)
    requires
        covers(m1, p),
        wm_extends(m2, m1),
    ensures
        covers(m2, p),
{
    assert forall|w: Seq<char>| #[trigger] has_wildcard(p, w) implies wm_has(m2, w) by {
        assert(wm_has(m1, w));
        crate::wildmap::lemma_wm_get_some_exists(m1, w);
        let q = choose|q: int| 0 <= q < m1.len() && #[trigger] m1[q] == (w, wm_get(m1, w)->Some_0);
        assert(wm_get(m2, m1[q].0) == Some(m1[q].1));
    }
}

/// The views of a sequence of binding maps.
pub open spec fn wms_view(v: Seq<WildMap>) -> Seq<WildMapV> {
    v.map_values(|m: WildMap| m@)
}

/// The views of a sequence of sequences of binding maps.
pub open spec fn wmss_view(v: Seq<Vec<WildMap>>) -> Seq<Seq<WildMapV>> {
    v.map_values(|x: Vec<WildMap>| wms_view(x@))
}

/// Each element of `ts` with `x` prepended.
pub open spec fn prepend_all(x: WildMapV, ts: Seq<Seq<WildMapV>>) -> Seq<Seq<WildMapV>> {
    ts.map_values(|t: Seq<WildMapV>| seq![x] + t)
}

/// All choices of one element of `xs` followed by one tuple of `rest`,
/// in order: tuples led by earlier elements of `xs` come first.
pub open spec fn product_with(xs: Seq<WildMapV>, rest: Seq<Seq<WildMapV>>) -> Seq<Seq<WildMapV>>
    decreases xs.len(),
{
    if xs.len() == 0 {
        Seq::empty()
    } else {
        prepend_all(xs[0], rest) + product_with(xs.drop_first(), rest)
    }
}

/// The cartesian product of the factors `vss`, in lexicographic order with
/// the first factor outermost.  The product of no factors is one empty
/// tuple.
pub open spec fn seq_product(vss: Seq<Seq<WildMapV>>) -> Seq<Seq<WildMapV>>
    decreases vss.len(),
{
    if vss.len() == 0 {
        seq![Seq::<WildMapV>::empty()]
    } else {
        product_with(vss[0], seq_product(vss.drop_first()))
    }
}

/// The tuple at index `t` of `product_with(xs, rest)`: the witnessing
/// element of `xs` and tuple of `rest`.
pub proof fn lemma_product_with_at(xs: Seq<WildMapV>, rest: Seq<Seq<WildMapV>>, t: int) -> (r: (
    int,
    int,
))
    requires
        0 <= t < product_with(xs, rest).len(),
    ensures
        0 <= r.0 < xs.len(),
        0 <= r.1 < rest.len(),
        product_with(xs, rest)[t] == seq![xs[r.0]] + rest[r.1],
    decreases xs.len(),
{
    let head = prepend_all(xs[0], rest);
    assert(head.len() == rest.len());
    if t < head.len() {
        assert(product_with(xs, rest)[t] == head[t]);
        assert(head[t] == seq![xs[0]] + rest[t]);
        (0, t)
    } else {
        let (a, b) = lemma_product_with_at(xs.drop_first(), rest, t - head.len());
        assert(product_with(xs, rest)[t] == product_with(xs.drop_first(), rest)[t - head.len()]);
        assert(xs.drop_first()[a] == xs[a + 1]);
        (a + 1, b)
    }
}

/// Every tuple of the product has one component from each factor.
pub proof fn lemma_product_membership(vss: Seq<Seq<WildMapV>>)
    ensures
        forall|t: int|
            0 <= t < seq_product(vss).len() ==> (#[trigger] seq_product(vss)[t]).len() == vss.len(),
        forall|t: int, i: int|
            0 <= t < seq_product(vss).len() && 0 <= i < vss.len() ==> vss[i].contains(
                #[trigger] seq_product(vss)[t][i],
            ),
    decreases vss.len(),
{
    if vss.len() > 0 {
        let rest = seq_product(vss.drop_first());
        lemma_product_membership(vss.drop_first());
        assert forall|t: int| 0 <= t < seq_product(vss).len() implies (#[trigger] seq_product(
            vss,
        )[t]).len() == vss.len() && (forall|i: int|
            0 <= i < vss.len() ==> vss[i].contains(#[trigger] seq_product(vss)[t][i])) by {
            let (a, b) = lemma_product_with_at(vss[0], rest, t);
            let tu = seq_product(vss)[t];
            assert(tu == seq![vss[0][a]] + rest[b]);
            assert(tu.len() == vss.len());
            assert forall|i: int| 0 <= i < vss.len() implies vss[i].contains(#[trigger] tu[i]) by {
                if i == 0 {
                    assert(tu[0] == vss[0][a]);
                    assert(vss[0].contains(vss[0][a]));
                } else {
                    assert(tu[i] == rest[b][i - 1]);
                    assert(vss.drop_first()[i - 1].contains(rest[b][i - 1]));
                    assert(vss.drop_first()[i - 1] == vss[i]);
                }
            }
        }
    }
}

/// Relies on itertools' `multi_cartesian_product`: it yields every way of
/// choosing one element from each of the given collections, in
/// lexicographic order with the first collection outermost; with no
/// collections it yields a single empty choice.  (The bindings are cloned;
/// the verified `Clone` of `WildMap` preserves the view.)
#[verifier::external_body]
fn cartesian_product(vs: &Vec<Vec<WildMap>>) -> (r: Vec<Vec<WildMap>>)
    ensures
        wmss_view(r@) == seq_product(wmss_view(vs@)),
{
    vs.iter().map(|v| v.iter().cloned()).multi_cartesian_product().collect()
}

} // verus!

verus! {

use crate::egraph::{enodes_view, lemma_class_nodes_witness};
use crate::wildmap::{lemma_wm_get_push, lemma_wm_get_some_exists, lemma_wm_wf_get_self};

/// The matches of one pattern in one e-class: the class and every binding
/// under which the pattern is realizable there.  `mappings` is never empty
/// when produced by `search`.
#[derive(Debug)]
pub struct PatternMatches {
    pub eclass: Id,
    pub mappings: Vec<WildMap>,
}

/// What `search` guarantees of each per-class match it returns.
pub open spec fn pm_good(eg: EGraphV, p: PatternV, pm: PatternMatches) -> bool {
    &&& (pm.eclass as int) < eg.n()
    &&& eg.canon(pm.eclass as int) == pm.eclass as int
    &&& pm.mappings@.len() > 0
    &&& forall|j: int|
        0 <= j < pm.mappings@.len() ==> good_mapping(
            eg,
            p,
            pm.eclass as int,
            (#[trigger] pm.mappings@[j])@,
        )
}

/// What a whole-e-graph search returns: per-class matches over canonical
/// classes in strictly increasing class order (so at most one entry per
/// e-class), each binding sound, and — completeness — every binding that
/// witnesses the pattern in a canonical class is found there, up to
/// binding order.
pub open spec fn search_post(eg: EGraphV, p: PatternV, ms: Seq<PatternMatches>) -> bool {
    &&& forall|t: int| 0 <= t < ms.len() ==> pm_good(eg, p, #[trigger] ms[t])
    &&& forall|t1: int, t2: int|
        0 <= t1 < t2 < ms.len() ==> (#[trigger] ms[t1]).eclass < (#[trigger] ms[t2]).eclass
    &&& forall|c: int, m: WildMapV|
        0 <= c < eg.n() && eg.canon(c) == c && wm_wf(m) && wm_keys_in(m, p) && #[trigger] realizes(
            eg,
            p,
            c,
            m,
        ) ==> exists|t: int|
            0 <= t < ms.len() && (#[trigger] ms[t]).eclass as int == c && found_equiv(
                ms[t].mappings@,
                m,
            )
}

/// Merge the component bindings of one tuple, first-wins with conflict
/// detection: the merge fails exactly when no single binding is consistent
/// with every component; when it succeeds, the merged map extends every
/// component and binds exactly as any consistent binding does.
#[verifier::loop_isolation(false)]
#[verifier::spinoff_prover]
#[verifier::rlimit(100)]
fn combine_tuple(
    tuple: &Vec<WildMap>,
    Ghost(eg): Ghost<EGraphV>,
    Ghost(pv): Ghost<PatternV>,
    Ghost(cvals): Ghost<Seq<int>>,
) -> (r: Option<WildMap>)
    requires
        pv is Expr,
        tuple@.len() == pv->Expr_children.len(),
        tuple@.len() >= 1,
        forall|i: int|
            0 <= i < tuple@.len() ==> good_mapping(
                eg,
                pv->Expr_children[i],
                cvals[i],
                (#[trigger] tuple@[i])@,
            ),
    ensures
        ({
            let tv = wms_view(tuple@);
            match r {
                Some(cm) => {
                    &&& wm_wf(cm@)
                    &&& wm_in_range(eg, cm@)
                    &&& wm_keys_in(cm@, pv)
                    &&& forall|i: int|
                        0 <= i < tuple@.len() ==> realizes(
                            eg,
                            #[trigger] pv->Expr_children[i],
                            cvals[i],
                            cm@,
                        ) && covers(cm@, pv->Expr_children[i])
                    &&& forall|m: WildMapV|
                        wm_wf(m) && wm_keys_in(m, pv) && #[trigger] tuple_consistent(tv, m)
                            ==> map_equiv(cm@, m)
                },
                None => forall|m: WildMapV| !tuple_consistent(tv, m),
            }
        }),
{
    let ghost chv = pv->Expr_children;
    let ghost tv = wms_view(tuple@);
    proof {
        assert(tv.len() == tuple@.len());
        assert forall|i: int| 0 <= i < tuple@.len() implies tv[i] == (#[trigger] tuple@[i])@ by {}
    }
                            let mut combined = tuple[0].clone();
                            proof {
                                assert(combined@ == tuple@[0]@);
                                assert forall|q: int| 0 <= q < combined@.len() implies has_wildcard(
                                    pv,
                                    (#[trigger] combined@[q]).0,
                                ) by {
                                    assert(has_wildcard(chv[0], combined@[q].0));
                                    lemma_has_wildcard_child(pv, 0, combined@[q].0);
                                }
                                assert(wm_keys_in(combined@, pv));
                                assert forall|q: int| 0 <= q < combined@.len() implies wm_get(
                                    combined@,
                                    (#[trigger] combined@[q]).0,
                                ) == Some(combined@[q].1) by {
                                    lemma_wm_wf_get_self(combined@, q);
                                }
                                assert(wm_extends(combined@, tuple@[0]@));
                                assert forall|q: int| 0 <= q < combined@.len() implies exists|
                                    i: int,
                                    x: int,
                                |
                                    0 <= i < tv.len() && 0 <= x < tv[i].len()
                                        && #[trigger] combined@[q] == tv[i][x] by {
                                    assert(tv[0] == (tuple@[0])@);
                                    assert(combined@[q] == tv[0][q]);
                                }
                                assert(entries_from(combined@, tv));
                            }
                            let mut ok = true;
                            let mut jj: usize = 1;
                            while jj < tuple.len()
                                invariant
                                    1 <= jj <= tuple@.len(),
                                    ok ==> wm_wf(combined@) && wm_in_range(eg, combined@)
                                        && wm_keys_in(combined@, pv) && entries_from(combined@, tv)
                                        && (forall|q: int|
                                        0 <= q < jj ==> wm_extends(
                                            combined@,
                                            (#[trigger] tuple@[q])@,
                                        )),
                                    !ok ==> (forall|m: WildMapV| !tuple_consistent(tv, m)),
                                decreases tuple@.len() - jj,
                            {
                                if ok {
                                    let mj = &tuple[jj];
                                    let mut conflict = false;
                                    let mut pi: usize = 0;
                                    while pi < mj.len()
                                        invariant
                                            pi <= mj@.len(),
                                            !conflict ==> wm_wf(combined@) && wm_in_range(
                                                eg,
                                                combined@,
                                            ) && wm_keys_in(combined@, pv) && entries_from(
                                                combined@,
                                                tv,
                                            ) && (forall|q: int|
                                                0 <= q < jj ==> wm_extends(
                                                    combined@,
                                                    (#[trigger] tuple@[q])@,
                                                )) && (forall|q: int|
                                                0 <= q < pi ==> wm_get(
                                                    combined@,
                                                    (#[trigger] mj@[q]).0,
                                                ) == Some(mj@[q].1)),
                                            conflict ==> (forall|m: WildMapV|
                                                !tuple_consistent(tv, m)),
                                        decreases mj@.len() - pi,
                                    {
                                        if !conflict {
                                            let (wref, id) = mj.entry(pi);
                                            let wc = wref.clone();
                                            let ghost pre = combined@;
                                            let ghost pair = (wc@, id as int);
                                            let prior = combined.insert(wc, id);
                                            let mut is_conflict = false;
                                            if let Some(old_id) = prior {
                                                if old_id != id {
                                                    is_conflict = true;
                                                }
                                            }
                                            proof {
                                                assert(pair.0 == mj@[pi as int].0);
                                                assert(pair.1 == mj@[pi as int].1);
                                                if prior is Some {
                                                    assert(combined@ == pre);
                                                    if !is_conflict {
                                                        assert(wm_get(pre, pair.0) == Some(
                                                            pair.1,
                                                        ));
                                                    }
                                                } else {
                                                    assert(combined@ == pre.push(pair));
                                                    assert forall|x: Seq<char>, v: int|
                                                        wm_get(pre, x) == Some(v) implies wm_get(
                                                        combined@,
                                                        x,
                                                    ) == Some(v) by {
                                                        lemma_wm_get_push(pre, pair, x);
                                                    }
                                                    lemma_wm_get_push(pre, pair, pair.0);
                                                    assert(wm_get(combined@, pair.0) == Some(
                                                        pair.1,
                                                    ));
                                                    assert(wm_in_range(eg, mj@));
                                                    assert(0 <= pair.1 < eg.n());
                                                    assert(has_wildcard(chv[jj as int], pair.0));
                                                    lemma_has_wildcard_child(pv, jj as int, pair.0);
                                                    assert forall|q: int|
                                                        0 <= q < combined@.len() implies
                                                        has_wildcard(
                                                        pv,
                                                        (#[trigger] combined@[q]).0,
                                                    ) by {
                                                        if q < pre.len() {
                                                            assert(combined@[q] == pre[q]);
                                                        } else {
                                                            assert(combined@[q] == pair);
                                                        }
                                                    }
                                                    assert forall|q: int|
                                                        0 <= q < combined@.len() implies exists|
                                                        i: int,
                                                        x: int,
                                                    |
                                                        0 <= i < tv.len() && 0 <= x < tv[i].len()
                                                            && #[trigger] combined@[q] == tv[i][x]
                                                         by {
                                                        if q < pre.len() {
                                                            assert(combined@[q] == pre[q]);
                                                            assert(exists|i: int, x: int|
                                                                0 <= i < tv.len() && 0 <= x
                                                                    < tv[i].len()
                                                                    && #[trigger] pre[q] == tv[i][x]);
                                                        } else {
                                                            assert(combined@[q] == pair);
                                                            assert(tv[jj as int] == mj@);
                                                            assert(tv[jj as int][pi as int]
                                                                == pair);
                                                        }
                                                    }
                                                    assert(entries_from(combined@, tv));
                                                    assert forall|q: int|
                                                        0 <= q < combined@.len() implies 0 <= (
                                                    #[trigger] combined@[q]).1 < eg.n() by {
                                                        if q < pre.len() {
                                                            assert(combined@[q] == pre[q]);
                                                        } else {
                                                            assert(combined@[q] == pair);
                                                        }
                                                    }
                                                    assert forall|q: int, x: int|
                                                        0 <= q < jj && 0 <= x
                                                            < tuple@[q]@.len() implies wm_get(
                                                        combined@,
                                                        (#[trigger] tuple@[q]@[x]).0,
                                                    ) == Some(tuple@[q]@[x].1) by {
                                                        assert(wm_get(pre, tuple@[q]@[x].0)
                                                            == Some(tuple@[q]@[x].1));
                                                        lemma_wm_get_push(
                                                            pre,
                                                            pair,
                                                            tuple@[q]@[x].0,
                                                        );
                                                    }
                                                    assert forall|q: int|
                                                        0 <= q < pi + 1 implies wm_get(
                                                        combined@,
                                                        (#[trigger] mj@[q]).0,
                                                    ) == Some(mj@[q].1) by {
                                                        if q < pi {
                                                            lemma_wm_get_push(
                                                                pre,
                                                                pair,
                                                                mj@[q].0,
                                                            );
                                                        }
                                                    }
                                                }
                                            }
                                            proof {
                                                if is_conflict {
                                                    let old_v = prior->Some_0 as int;
                                                    assert(wm_get(pre, pair.0) == Some(old_v));
                                                    assert(tv[jj as int] == mj@);
                                                    assert(tv[jj as int][pi as int] == pair);
                                                    lemma_conflict_inconsistent(
                                                        tv,
                                                        pre,
                                                        pair,
                                                        old_v,
                                                        jj as int,
                                                        pi as int,
                                                    );
                                                }
                                            }
                                            if is_conflict {
                                                conflict = true;
                                            }
                                        }
                                        pi += 1;
                                    }
                                    if conflict {
                                        ok = false;
                                    } else {
                                        proof {
                                            assert(wm_extends(combined@, mj@));
                                            assert(mj@ == (tuple@[jj as int])@);
                                        }
                                    }
                                } else {
                                }
                                jj += 1;
                            }
    if ok {
        proof {
            let cm = combined@;
                                    let cm = combined@;
                                    assert forall|i: int| 0 <= i < tuple@.len() implies realizes(
                                        eg,
                                        chv[i],
                                        cvals[i],
                                        cm,
                                    ) && covers(cm, chv[i]) by {
                                        assert(wm_extends(cm, (tuple@[i])@));
                                        lemma_realizes_extend(
                                            eg,
                                            chv[i],
                                            cvals[i],
                                            (tuple@[i])@,
                                            cm,
                                        );
                                        lemma_covers_extend(chv[i], (tuple@[i])@, cm);
                                    }
            assert forall|i: int| 0 <= i < tv.len() implies covers(#[trigger] tv[i], chv[i])
                && wm_extends(cm, tv[i]) by {
                assert(tv[i] == (tuple@[i])@);
            }
            lemma_merge_equiv(pv, tv, cm);
        }
        Some(combined)
    } else {
        None
    }
}

/// Whether a binding is one the matcher may produce through one e-node:
/// well formed, in range, keyed by the pattern's wildcards, and realizing
/// each sub-pattern in the corresponding child class.
pub open spec fn node_mapping_good(eg: EGraphV, pv: PatternV, cvals: Seq<int>, m: WildMapV) -> bool {
    &&& wm_wf(m)
    &&& wm_in_range(eg, m)
    &&& wm_keys_in(m, pv)
    &&& forall|i: int|
        0 <= i < pv->Expr_children.len() ==> realizes(eg, #[trigger] pv->Expr_children[i], cvals[i], m)
            && covers(m, pv->Expr_children[i])
}

/// If each factor list is complete for its sub-pattern and the collected
/// merges are complete for every tuple-consistent binding, then the
/// collection is complete for every binding that realizes all
/// sub-patterns in the node's child classes.
proof fn lemma_node_completeness(
    eg: EGraphV,
    pv: PatternV,
    nodev: ENodeV,
    args: Seq<Vec<WildMap>>,
    r: Seq<WildMap>,
)
    requires
        pv is Expr,
        args.len() == pv->Expr_children.len(),
        nodev.children.len() == args.len(),
        forall|i: int, j: int|
            0 <= i < args.len() && 0 <= j < (#[trigger] args[i])@.len() ==> good_mapping(
                eg,
                pv->Expr_children[i],
                nodev.children[i],
                (#[trigger] args[i]@[j])@,
            ),
        forall|i: int, m2: WildMapV|
            0 <= i < args.len() && wm_wf(m2) && wm_keys_in(m2, pv->Expr_children[i])
                && #[trigger] realizes(eg, pv->Expr_children[i], nodev.children[i], m2)
                ==> found_equiv((args[i])@, m2),
        forall|m: WildMapV|
            #![trigger wm_keys_in(m, pv)]
            wm_wf(m) && wm_keys_in(m, pv) && (exists|ti2: int|
                0 <= ti2 < seq_product(wmss_view(args)).len() && #[trigger] tuple_consistent(
                    seq_product(wmss_view(args))[ti2],
                    m,
                )) ==> found_equiv(r, m),
    ensures
        forall|m: WildMapV|
            #![trigger wm_keys_in(m, pv)]
            wm_wf(m) && wm_keys_in(m, pv) && (forall|i: int|
                0 <= i < pv->Expr_children.len() ==> realizes(
                    eg,
                    #[trigger] pv->Expr_children[i],
                    nodev.children[i],
                    m,
                )) ==> found_equiv(r, m),
{
    let vss = wmss_view(args);
    let chv = pv->Expr_children;
    assert(vss.len() == args.len());
    assert forall|i: int, j: int|
        0 <= i < vss.len() && 0 <= j < vss[i].len() implies good_mapping(
        eg,
        chv[i],
        nodev.children[i],
        #[trigger] vss[i][j],
    ) by {
        assert(vss[i] == wms_view(args[i]@));
        assert(vss[i][j] == args[i]@[j]@);
        assert(vss[i].len() == args[i]@.len());
    }
    assert forall|i: int, m2: WildMapV|
        0 <= i < vss.len() && wm_wf(m2) && wm_keys_in(m2, chv[i]) && #[trigger] realizes(
            eg,
            chv[i],
            nodev.children[i],
            m2,
        ) implies exists|j: int| 0 <= j < vss[i].len() && map_equiv(#[trigger] vss[i][j], m2) by {
        assert(found_equiv((args[i])@, m2));
        let j = choose|j: int|
            0 <= j < args[i]@.len() && map_equiv((#[trigger] args[i]@[j])@, m2);
        assert(vss[i] == wms_view(args[i]@));
        assert(vss[i][j] == args[i]@[j]@);
        assert(vss[i].len() == args[i]@.len());
        assert(map_equiv(vss[i][j], m2));
    }
    assert forall|m: WildMapV|
        #![trigger wm_keys_in(m, pv)]
        wm_wf(m) && wm_keys_in(m, pv) && (forall|i: int|
            0 <= i < pv->Expr_children.len() ==> realizes(
                eg,
                #[trigger] pv->Expr_children[i],
                nodev.children[i],
                m,
            )) implies found_equiv(r, m) by {
        let ti0 = lemma_selection_consistent(eg, pv, nodev, vss, m);
        assert(tuple_consistent(seq_product(vss)[ti0], m));
    }
}

/// All consistent merges over the product tuples, in product order:
/// each result matches through the node's children, and every binding
/// consistent with some tuple is found (up to binding order).
#[verifier::loop_isolation(false)]
#[verifier::spinoff_prover]
#[verifier::rlimit(100)]
fn collect_matches(
    tuples: &Vec<Vec<WildMap>>,
    Ghost(eg): Ghost<EGraphV>,
    Ghost(pv): Ghost<PatternV>,
    Ghost(cvals): Ghost<Seq<int>>,
    Ghost(vss): Ghost<Seq<Seq<WildMapV>>>,
) -> (r: Vec<WildMap>)
    requires
        pv is Expr,
        vss.len() == pv->Expr_children.len(),
        vss.len() >= 1,
        wmss_view(tuples@) == seq_product(vss),
        forall|i: int, j: int|
            0 <= i < vss.len() && 0 <= j < vss[i].len() ==> good_mapping(
                eg,
                pv->Expr_children[i],
                cvals[i],
                #[trigger] vss[i][j],
            ),
    ensures
        forall|j: int| 0 <= j < r@.len() ==> node_mapping_good(eg, pv, cvals, (#[trigger] r@[j])@),
        forall|m: WildMapV|
            #![trigger wm_keys_in(m, pv)]
            wm_wf(m) && wm_keys_in(m, pv) && (exists|ti2: int|
                0 <= ti2 < seq_product(vss).len() && #[trigger] tuple_consistent(
                    seq_product(vss)[ti2],
                    m,
                )) ==> found_equiv(r@, m),
{
    let ghost chv = pv->Expr_children;
    let mut new_mappings: Vec<WildMap> = Vec::new();
    proof {
        lemma_product_membership(vss);
        assert(tuples@.len() == seq_product(vss).len());
    }
                        let mut ti: usize = 0;
                        while ti < tuples.len()
                            invariant
                                ti <= tuples.len(),
                                forall|j: int|
                                    0 <= j < new_mappings@.len() ==> node_mapping_good(
                                        eg,
                                        pv,
                                        cvals,
                                        (#[trigger] new_mappings@[j])@,
                                    ),
                                forall|m: WildMapV|
                                    #![trigger wm_keys_in(m, pv)]
                                    wm_wf(m) && wm_keys_in(m, pv) && (exists|ti2: int|
                                        0 <= ti2 < ti && #[trigger] tuple_consistent(
                                            seq_product(vss)[ti2],
                                            m,
                                        )) ==> found_equiv(new_mappings@, m),
                            decreases tuples.len() - ti,
                        {
                            let tuple = &tuples[ti];
                            let ghost tv = wms_view(tuples@[ti as int]@);
                            proof {
                                assert(wmss_view(tuples@)[ti as int] == wms_view(tuple@));
                                assert(tv == wms_view(tuple@));
                                assert(wms_view(tuple@) == seq_product(vss)[ti as int]);
                                assert(wms_view(tuple@).len() == tuple@.len());
                                assert(tuple@.len() == vss.len());
                                assert forall|i: int| 0 <= i < tuple@.len() implies tv[i] == (
                                #[trigger] tuple@[i])@ by {}
                                assert forall|i: int| 0 <= i < tuple@.len() implies good_mapping(
                                    eg,
                                    chv[i],
                                    cvals[i],
                                    (#[trigger] tuple@[i])@,
                                ) by {
                                    assert(vss[i].contains(seq_product(vss)[ti as int][i]));
                                    assert(seq_product(vss)[ti as int][i] == tuple@[i]@);
                                    let j = choose|j: int|
                                        0 <= j < vss[i].len() && vss[i][j] == tuple@[i]@;
                                    assert(good_mapping(eg, chv[i], cvals[i], vss[i][j]));
                                }
                            }
                            let combined_opt = combine_tuple(
                                tuple,
                                Ghost(eg),
                                Ghost(pv),
                                Ghost(cvals),
                            );
                            match combined_opt {
                                Some(combined) => {
                                    proof {
                                        let cm = combined@;
                                        assert forall|i: int| 0 <= i < chv.len() implies realizes(
                                            eg,
                                            #[trigger] pv->Expr_children[i],
                                            cvals[i],
                                            cm,
                                        ) && covers(cm, pv->Expr_children[i]) by {}
                                        assert(node_mapping_good(eg, pv, cvals, cm));
                                    }
                                    let ghost cmw = combined;
                                    let ghost nm_pre = new_mappings@;
                                    new_mappings.push(combined);
                                    proof {
                                        assert(new_mappings@ == nm_pre.push(cmw));
                                        assert forall|m: WildMapV|
                                            #![trigger wm_keys_in(m, pv)]
                                            wm_wf(m) && wm_keys_in(m, pv) && (exists|ti2: int|
                                                0 <= ti2 < ti + 1 && #[trigger] tuple_consistent(
                                                    seq_product(vss)[ti2],
                                                    m,
                                                )) implies found_equiv(new_mappings@, m) by {
                                            let ti2 = choose|ti2: int|
                                                0 <= ti2 < ti + 1 && #[trigger] tuple_consistent(
                                                    seq_product(vss)[ti2],
                                                    m,
                                                );
                                            if ti2 < ti {
                                                assert(found_equiv(nm_pre, m));
                                                lemma_found_equiv_push(nm_pre, cmw, m);
                                            } else {
                                                assert(tuple_consistent(tv, m));
                                                assert(map_equiv(cmw@, m));
                                                assert(new_mappings@[nm_pre.len() as int] == cmw);
                                            }
                                        }
                                    }
                                },
                                None => {
                                    proof {
                                        assert forall|m: WildMapV|
                                            #![trigger wm_keys_in(m, pv)]
                                            wm_wf(m) && wm_keys_in(m, pv) && (exists|ti2: int|
                                                0 <= ti2 < ti + 1 && #[trigger] tuple_consistent(
                                                    seq_product(vss)[ti2],
                                                    m,
                                                )) implies found_equiv(new_mappings@, m) by {
                                            let ti2 = choose|ti2: int|
                                                0 <= ti2 < ti + 1 && #[trigger] tuple_consistent(
                                                    seq_product(vss)[ti2],
                                                    m,
                                                );
                                            if ti2 == ti as int {
                                                assert(tuple_consistent(tv, m));
                                                assert(false);
                                            }
                                        }
                                    }
                                },
                            }
                            ti += 1;
                        }
    new_mappings
}

impl Pattern {
    /// The bindings under which this operator pattern matches through one
    /// e-node with the same arity: every consistent merge of child
    /// bindings, sound and complete with respect to the node's children.
    #[verifier::loop_isolation(false)]
    #[verifier::spinoff_prover]
    #[verifier::rlimit(100)]
    fn search_pat_node(&self, egraph: &EGraph, node: &ENode) -> (r: Vec<WildMap>)
        requires
            egraph@.wf(),
            self is Expr,
            node@.children.len() == self@->Expr_children.len(),
            node.children@.len() == self->Expr_0.children@.len(),
            self->Expr_0.children@.len() > 0,
            forall|i: int|
                0 <= i < node@.children.len() ==> 0 <= #[trigger] node@.children[i] < egraph@.n(),
        ensures
            forall|j: int|
                0 <= j < r@.len() ==> node_mapping_good(
                    egraph@,
                    self@,
                    node@.children,
                    (#[trigger] r@[j])@,
                ),
            forall|m: WildMapV|
                #![trigger wm_keys_in(m, self@)]
                wm_wf(m) && wm_keys_in(m, self@) && (forall|i: int|
                    0 <= i < self@->Expr_children.len() ==> realizes(
                        egraph@,
                        #[trigger] self@->Expr_children[i],
                        node@.children[i],
                        m,
                    )) ==> found_equiv(r@, m),
        decreases *self, 0int,
    {
        let ghost eg = egraph@;
        let ghost pv = self@;
        match self {
            Pattern::Wildcard(_) => {
                proof {
                    assert(false);
                }
                Vec::new()
            },
            Pattern::Expr(e) => {
                proof {
                    assert(*e == self->Expr_0);
                    lemma_view_expr(*self);
                }
                let ghost chv = pv->Expr_children;
                let mut new_mappings: Vec<WildMap> = Vec::new();
                        let mut arg_mappings: Vec<Vec<WildMap>> = Vec::new();
                        let mut ci: usize = 0;
                        while ci < e.children.len()
                            invariant
                                ci <= e.children.len(),
                                arg_mappings@.len() == ci as int,
                                forall|i: int, j: int|
                                    0 <= i < ci && 0 <= j < (#[trigger] arg_mappings@[i])@.len()
                                        ==> good_mapping(
                                        eg,
                                        chv[i],
                                        node@.children[i],
                                        (#[trigger] arg_mappings@[i]@[j])@,
                                    ),
                                forall|i: int, m2: WildMapV|
                                    0 <= i < ci && wm_wf(m2) && wm_keys_in(m2, chv[i])
                                        && #[trigger] realizes(eg, chv[i], node@.children[i], m2)
                                        ==> found_equiv((arg_mappings@[i])@, m2),
                            decreases e.children.len() - ci,
                        {
                            proof {
                                lemma_child_decreases(*self, ci as int);
                                assert(chv[ci as int] == e.children@[ci as int]@);
                                assert(node.children@[ci as int] as int == node@.children[ci as int]);
                            }
                            let s_i = e.children[ci].search_pat(egraph, node.children[ci]);
                            arg_mappings.push(s_i);
                            ci += 1;
                        }
                        let ghost vss = wmss_view(arg_mappings@);
                        proof {
                            assert(vss.len() == e.children@.len());
                            assert forall|i: int, j: int|
                                0 <= i < vss.len() && 0 <= j < vss[i].len() implies good_mapping(
                                eg,
                                pv->Expr_children[i],
                                node@.children[i],
                                #[trigger] vss[i][j],
                            ) by {
                                assert(vss[i] == wms_view(arg_mappings@[i]@));
                                assert(vss[i][j] == arg_mappings@[i]@[j]@);
                                assert(vss[i].len() == arg_mappings@[i]@.len());
                            }
                        }
                        let tuples = cartesian_product(&arg_mappings);
                        proof {
                            assert(wmss_view(tuples@) == seq_product(vss));
                        }
                        let new_mappings = collect_matches(
                            &tuples,
                            Ghost(eg),
                            Ghost(pv),
                            Ghost(node@.children),
                            Ghost(vss),
                        );
                        proof {
                            lemma_node_completeness(
                                eg,
                                pv,
                                node@,
                                arg_mappings@,
                                new_mappings@,
                            );
                        }
                new_mappings
            },
        }
    }
}

impl Pattern {
    /// Every binding under which this pattern is realizable in `eclass`:
    /// a wildcard matches any class, binding its name; an operator node
    /// matches through each e-node of the class with the same operator and
    /// arity, combining child bindings through every consistent merge.
    #[verifier::loop_isolation(false)]
    #[verifier::spinoff_prover]
    #[verifier::rlimit(100)]
    fn search_pat(&self, egraph: &EGraph, eclass: Id) -> (r: Vec<WildMap>)
        requires
            egraph@.wf(),
            (eclass as int) < egraph@.n(),
        ensures
            forall|j: int|
                0 <= j < r@.len() ==> good_mapping(
                    egraph@,
                    self@,
                    eclass as int,
                    (#[trigger] r@[j])@,
                ),
            self@ matches PatternV::Wildcard { name } ==> r@.len() == 1 && r@[0]@ == seq![
                (name, eclass as int),
            ],
            forall|m: WildMapV|
                wm_wf(m) && wm_keys_in(m, self@) && #[trigger] realizes(
                    egraph@,
                    self@,
                    eclass as int,
                    m,
                ) ==> found_equiv(r@, m),
            (self@ is Expr && self@->Expr_children.len() == 0) ==> r@.len() <= 1,
        decreases *self, 1int,
    {
        let ghost eg = egraph@;
        let ghost pv = self@;
        let ghost ec = eclass as int;
        match self {
            Pattern::Wildcard(w) => {
                let mut var_mapping = WildMap::default();
                let prior = var_mapping.insert(w.clone(), eclass);
                proof {
                    assert(prior is None);
                }
                let ghost mv = var_mapping@;
                let mut r: Vec<WildMap> = Vec::new();
                r.push(var_mapping);
                proof {
                    assert(mv == Seq::<(Seq<char>, int)>::empty().push((w@, ec)));
                    assert(mv.len() == 1 && mv[0] == (w@, ec));
                    assert(wm_get(mv, w@) == Some(ec));
                    assert(realizes(eg, pv, ec, mv));
                    assert(wm_wf(mv));
                    assert(wm_in_range(eg, mv));
                    assert forall|x: Seq<char>| #[trigger] has_wildcard(pv, x) implies wm_has(
                        mv,
                        x,
                    ) by {
                        assert(x == w@);
                    }
                    assert forall|q: int| 0 <= q < mv.len() implies has_wildcard(
                        pv,
                        (#[trigger] mv[q]).0,
                    ) by {
                        assert(mv[q].0 == w@);
                    }
                    assert(good_mapping(eg, pv, ec, mv));
                    assert(mv =~= seq![(w@, ec)]);
                    assert forall|m: WildMapV|
                        wm_wf(m) && wm_keys_in(m, pv) && #[trigger] realizes(
                            eg,
                            pv,
                            ec,
                            m,
                        ) implies found_equiv(r@, m) by {
                        assert(wm_get(m, w@) == Some(ec));
                        assert forall|x: Seq<char>|
                            #![trigger wm_get(mv, x)]
                            wm_get(mv, x) == wm_get(m, x) by {
                            if x == w@ {
                                assert(wm_get(mv, x) == Some(ec));
                            } else {
                                assert(mv.drop_first() =~= Seq::<(Seq<char>, int)>::empty());
                                assert(mv[0].0 == w@);
                                assert(wm_get(Seq::<(Seq<char>, int)>::empty(), x) is None);
                                assert(wm_get(mv, x) == wm_get(mv.drop_first(), x));
                                assert(wm_get(mv, x) is None);
                                if wm_get(m, x) is Some {
                                    lemma_wm_get_some_exists(m, x);
                                    let q = choose|q: int|
                                        0 <= q < m.len() && #[trigger] m[q] == (
                                            x,
                                            wm_get(m, x)->Some_0,
                                        );
                                    assert(has_wildcard(pv, m[q].0));
                                    assert(x == w@);
                                }
                            }
                        }
                        assert(map_equiv(r@[0]@, m));
                    }
                }
                r
            },
            Pattern::Expr(e) => {
                proof {
                    assert(*e == self->Expr_0);
                    lemma_view_expr(*self);
                }
                let ghost chv = pv->Expr_children;
                let mut new_mappings: Vec<WildMap> = Vec::new();
                let nodes = egraph.class_nodes(eclass);
                proof {
                    lemma_class_nodes_witness(eg, ec, eg.nodes.len() as int);
                    assert(enodes_view(nodes@) == eg.class_nodes(ec));
                }
                if e.children.len() == 0 {
                    let mut found = false;
                    let mut t: usize = 0;
                    while t < nodes.len()
                        invariant
                            t <= nodes.len(),
                            forall|j: int|
                                0 <= j < new_mappings@.len() ==> good_mapping(
                                    eg,
                                    pv,
                                    ec,
                                    (#[trigger] new_mappings@[j])@,
                                ),
                            found ==> new_mappings@.len() == 1 && (new_mappings@[0])@
                                == Seq::<(Seq<char>, int)>::empty(),
                            !found ==> new_mappings@.len() == 0,
                            !found ==> forall|t2: int|
                                0 <= t2 < t ==> !((#[trigger] eg.class_nodes(ec)[t2]).op
                                    == pv->Expr_op && eg.class_nodes(ec)[t2].children.len() == 0),
                        decreases nodes.len() - t,
                    {
                        let is_nullary = nodes[t].children.len() == 0;
                        let op_eq = nodes[t].op == e.op;
                        proof {
                            assert(enodes_view(nodes@)[t as int] == nodes@[t as int]@);
                            assert(eg.class_nodes(ec)[t as int] == nodes@[t as int]@);
                        }
                        if !found && is_nullary && op_eq {
                            proof {
                                assert(enodes_view(nodes@)[t as int] == nodes@[t as int]@);
                                let cn = eg.class_nodes(ec)[t as int];
                                assert(cn == nodes@[t as int]@);
                                let k = choose|k: int|
                                    0 <= k < eg.nodes.len() && eg.leaders[k] == ec && cn
                                        == eg.canon_node(eg.nodes[k]);
                                assert(eg.nodes[k].op == pv->Expr_op);
                                assert(eg.canon_node(eg.nodes[k]).children.len() == eg.nodes[k].children.len());
                                assert(eg.nodes[k].children.len() == 0);
                                let mv = Seq::<(Seq<char>, int)>::empty();
                                assert(realizes(eg, pv, ec, mv));
                                assert forall|x: Seq<char>| #[trigger] has_wildcard(pv, x) implies
                                    wm_has(mv, x) by {}
                                assert(wm_keys_in(mv, pv));
                                assert(good_mapping(eg, pv, ec, mv));
                            }
                            new_mappings.push(WildMap::default());
                            found = true;
                        }
                        proof {
                            if !found {
                                assert(!(eg.class_nodes(ec)[t as int].op == pv->Expr_op
                                    && eg.class_nodes(ec)[t as int].children.len() == 0));
                            }
                        }
                        t += 1;
                    }
                    proof {
                        assert forall|m: WildMapV|
                            wm_wf(m) && wm_keys_in(m, pv) && #[trigger] realizes(
                                eg,
                                pv,
                                ec,
                                m,
                            ) implies found_equiv(new_mappings@, m) by {
                            assert(chv.len() == 0);
                            if m.len() > 0 {
                                assert(has_wildcard(pv, m[0].0));
                                assert(false);
                            }
                            lemma_realizes_position(eg, pv, ec, m);
                            let t2 = choose|t2: int| #[trigger] node_matches_at(eg, pv, ec, t2, m);
                            assert(eg.class_nodes(ec)[t2].op == pv->Expr_op);
                            assert(eg.class_nodes(ec)[t2].children.len() == 0);
                            assert(found);
                            let m0 = (new_mappings@[0])@;
                            assert forall|x: Seq<char>|
                                #![trigger wm_get(m0, x)]
                                wm_get(m0, x) == wm_get(m, x) by {
                                assert(m.len() == 0);
                            }
                            assert(map_equiv(m0, m));
                        }
                    }
                    return new_mappings;
                }
                let mut t: usize = 0;
                while t < nodes.len()
                    invariant
                        t <= nodes.len(),
                        forall|j: int|
                            0 <= j < new_mappings@.len() ==> good_mapping(
                                eg,
                                pv,
                                ec,
                                (#[trigger] new_mappings@[j])@,
                            ),
                        forall|m: WildMapV|
                            #![trigger wm_keys_in(m, pv)]
                            wm_wf(m) && wm_keys_in(m, pv) && (exists|t2: int|
                                0 <= t2 < t && #[trigger] node_matches_at(eg, pv, ec, t2, m))
                                ==> found_equiv(new_mappings@, m),
                    decreases nodes.len() - t,
                {
                    let node = &nodes[t];
                    proof {
                        assert(enodes_view(nodes@)[t as int] == nodes@[t as int]@);
                        assert(eg.class_nodes(ec)[t as int] == node@);
                    }
                    let op_eq = node.op == e.op;
                    let arity_eq = node.children.len() == e.children.len();
                    if op_eq && arity_eq {
                        proof {
                            let k = choose|k: int|
                                0 <= k < eg.nodes.len() && eg.leaders[k] == ec && eg.class_nodes(
                                    ec,
                                )[t as int] == eg.canon_node(eg.nodes[k]);
                            assert(node@.children == eg.nodes[k].children.map_values(
                                |c: int| eg.canon(c),
                            ));
                            assert forall|i: int| 0 <= i < node@.children.len() implies 0
                                <= #[trigger] node@.children[i] < eg.n() && eg.canon(
                                node@.children[i],
                            ) == node@.children[i] by {
                                assert(node@.children[i] == eg.canon(eg.nodes[k].children[i]));
                                assert(0 <= eg.nodes[k].children[i] < eg.n());
                            }
                        }
                        let found = self.search_pat_node(egraph, node);
                        let ghost nm_pre = new_mappings@;
                        let mut fi: usize = 0;
                        while fi < found.len()
                            invariant
                                fi <= found@.len(),
                                new_mappings@.len() == nm_pre.len() + fi,
                                forall|j: int|
                                    0 <= j < nm_pre.len() ==> new_mappings@[j] == nm_pre[j],
                                forall|j: int|
                                    0 <= j < fi ==> (#[trigger] new_mappings@[nm_pre.len() + j])@
                                        == (found@[j])@,
                                forall|j: int|
                                    0 <= j < new_mappings@.len() ==> good_mapping(
                                        eg,
                                        pv,
                                        ec,
                                        (#[trigger] new_mappings@[j])@,
                                    ),
                            decreases found@.len() - fi,
                        {
                            let elem = found[fi].clone();
                            proof {
                                let cm = (found@[fi as int])@;
                                assert(elem@ == cm);
                                assert(node_mapping_good(eg, pv, node@.children, cm));
                                let k = choose|k: int|
                                    0 <= k < eg.nodes.len() && eg.leaders[k] == ec
                                        && eg.class_nodes(ec)[t as int] == eg.canon_node(
                                        eg.nodes[k],
                                    );
                                assert(eg.nodes[k].op == pv->Expr_op);
                                assert(eg.nodes[k].children.len() == chv.len());
                                assert forall|i: int| 0 <= i < chv.len() implies realizes(
                                    eg,
                                    #[trigger] chv[i],
                                    eg.canon(eg.nodes[k].children[i]),
                                    cm,
                                ) by {
                                    assert(node@.children[i] == eg.canon(eg.nodes[k].children[i]));
                                    assert(realizes(eg, pv->Expr_children[i], node@.children[i], cm));
                                }
                                assert(realizes(eg, pv, ec, cm));
                                assert forall|x: Seq<char>| #[trigger] has_wildcard(
                                    pv,
                                    x,
                                ) implies wm_has(cm, x) by {
                                    let i = choose|i: int|
                                        0 <= i < chv.len() && has_wildcard(#[trigger] chv[i], x);
                                    assert(covers(cm, chv[i]));
                                }
                                assert(good_mapping(eg, pv, ec, cm));
                            }
                            new_mappings.push(elem);
                            fi += 1;
                        }
                        proof {
                            assert forall|m: WildMapV|
                                #![trigger wm_keys_in(m, pv)]
                                wm_wf(m) && wm_keys_in(m, pv) && node_matches_at(
                                    eg,
                                    pv,
                                    ec,
                                    t as int,
                                    m,
                                ) implies found_equiv(new_mappings@, m) by {
                                assert(eg.class_nodes(ec)[t as int] == node@);
                                assert forall|i: int| 0 <= i < chv.len() implies realizes(
                                    eg,
                                    #[trigger] pv->Expr_children[i],
                                    node@.children[i],
                                    m,
                                ) by {
                                    assert(pv->Expr_children[i] == chv[i]);
                                }
                                assert(found_equiv(found@, m));
                                let j = choose|j: int|
                                    0 <= j < found@.len() && map_equiv((#[trigger] found@[j])@, m);
                                assert((new_mappings@[nm_pre.len() + j])@ == (found@[j])@);
                                assert(map_equiv((new_mappings@[nm_pre.len() + j])@, m));
                            }
                            assert forall|m: WildMapV|
                                #![trigger wm_keys_in(m, pv)]
                                wm_wf(m) && wm_keys_in(m, pv) && (exists|t2: int|
                                    0 <= t2 < t && #[trigger] node_matches_at(
                                        eg,
                                        pv,
                                        ec,
                                        t2,
                                        m,
                                    )) implies found_equiv(new_mappings@, m) by {
                                assert(found_equiv(nm_pre, m));
                                let j = choose|j: int|
                                    0 <= j < nm_pre.len() && map_equiv((#[trigger] nm_pre[j])@, m);
                                assert(new_mappings@[j] == nm_pre[j]);
                            }
                        }
                    }
                    proof {
                        assert forall|m: WildMapV|
                            #![trigger wm_keys_in(m, pv)]
                            wm_wf(m) && wm_keys_in(m, pv) && (exists|t2: int|
                                0 <= t2 < t + 1 && #[trigger] node_matches_at(
                                    eg,
                                    pv,
                                    ec,
                                    t2,
                                    m,
                                )) implies found_equiv(new_mappings@, m) by {
                            let t2 = choose|t2: int|
                                0 <= t2 < t + 1 && #[trigger] node_matches_at(eg, pv, ec, t2, m);
                            if t2 == t as int {
                                if op_eq && arity_eq {
                                    assert(found_equiv(new_mappings@, m));
                                } else {
                                    assert(eg.class_nodes(ec)[t as int] == node@);
                                    assert(!(node@.op == pv->Expr_op && node@.children.len()
                                        == chv.len()));
                                    assert(false);
                                }
                            }
                        }
                    }
                    t += 1;
                }
                proof {
                    assert forall|m: WildMapV|
                        wm_wf(m) && wm_keys_in(m, pv) && #[trigger] realizes(
                            eg,
                            pv,
                            ec,
                            m,
                        ) implies found_equiv(new_mappings@, m) by {
                        lemma_realizes_position(eg, pv, ec, m);
                        let t2 = choose|t2: int| #[trigger] node_matches_at(eg, pv, ec, t2, m);
                        assert(eg.class_nodes(ec).len() == nodes@.len());
                        assert(0 <= t2 < nodes@.len());
                    }
                }
                new_mappings
            },
        }
    }

    /// The matches of this pattern in one e-class, if there are any.
    pub fn search_eclass(&self, egraph: &EGraph, eclass: Id) -> (r: Option<PatternMatches>)
        requires
            egraph@.wf(),
            (eclass as int) < egraph@.n(),
        ensures
            r matches Some(pm) ==> pm.eclass == eclass && pm.mappings@.len() > 0 && forall|j: int|
                0 <= j < pm.mappings@.len() ==> good_mapping(
                    egraph@,
                    self@,
                    eclass as int,
                    (#[trigger] pm.mappings@[j])@,
                ),
            forall|m: WildMapV|
                wm_wf(m) && wm_keys_in(m, self@) && #[trigger] realizes(
                    egraph@,
                    self@,
                    eclass as int,
                    m,
                ) ==> r is Some && found_equiv(r->Some_0.mappings@, m),
    {
        let mappings = self.search_pat(egraph, eclass);
        proof {
            assert forall|m: WildMapV|
                wm_wf(m) && wm_keys_in(m, self@) && #[trigger] realizes(
                    egraph@,
                    self@,
                    eclass as int,
                    m,
                ) implies mappings@.len() > 0 by {
                assert(found_equiv(mappings@, m));
                let j = choose|j: int|
                    0 <= j < mappings@.len() && map_equiv((#[trigger] mappings@[j])@, m);
            }
        }
        if mappings.len() > 0 {
            Some(PatternMatches { eclass, mappings })
        } else {
            None
        }
    }

    /// The matches of this pattern in every e-class of the e-graph, in
    /// increasing class order, one entry per class with at least one
    /// binding.  Every returned binding witnesses a match (soundness), and
    /// every binding witnessing the pattern in any canonical class appears,
    /// up to binding order (completeness).
    #[verifier::loop_isolation(false)]
    pub fn search(&self, egraph: &EGraph) -> (r: Vec<PatternMatches>)
        requires
            egraph@.wf(),
        ensures
            search_post(egraph@, self@, r@),
    {
        let ghost eg = egraph@;
        let ghost pv = self@;
        let mut r: Vec<PatternMatches> = Vec::new();
        let n = egraph.total_size();
        let mut c: usize = 0;
        while c < n
            invariant
                c <= n,
                forall|t: int| 0 <= t < r@.len() ==> pm_good(egraph@, self@, #[trigger] r@[t]),
                forall|t: int| 0 <= t < r@.len() ==> (#[trigger] r@[t]).eclass < c,
                forall|t1: int, t2: int|
                    0 <= t1 < t2 < r@.len() ==> (#[trigger] r@[t1]).eclass < (
                    #[trigger] r@[t2]).eclass,
                forall|c2: int, m: WildMapV|
                    0 <= c2 < c && eg.canon(c2) == c2 && wm_wf(m) && wm_keys_in(m, pv)
                        && #[trigger] realizes(eg, pv, c2, m) ==> exists|t: int|
                        0 <= t < r@.len() && (#[trigger] r@[t]).eclass as int == c2 && found_equiv(
                            r@[t].mappings@,
                            m,
                        ),
            decreases n - c,
        {
            let ghost r_pre = r@;
            let leader = egraph.find(c);
            if leader == c {
                match self.search_eclass(egraph, c) {
                    Some(pm) => {
                        r.push(pm);
                    },
                    None => {},
                }
            }
            proof {
                assert forall|c2: int, m: WildMapV|
                    0 <= c2 < c + 1 && eg.canon(c2) == c2 && wm_wf(m) && wm_keys_in(m, pv)
                        && #[trigger] realizes(eg, pv, c2, m) implies exists|t: int|
                        0 <= t < r@.len() && (#[trigger] r@[t]).eclass as int == c2 && found_equiv(
                            r@[t].mappings@,
                            m,
                        ) by {
                    if c2 < c {
                        let t = choose|t: int|
                            0 <= t < r_pre.len() && (#[trigger] r_pre[t]).eclass as int == c2
                                && found_equiv(r_pre[t].mappings@, m);
                        assert(r@[t] == r_pre[t]);
                    } else {
                        assert(leader == c);
                        assert(r@[r_pre.len() as int].eclass as int == c2);
                    }
                }
            }
            c += 1;
        }
        r
    }
}

} // verus!

verus! {

use crate::egraph::{AddResult, lemma_spec_add_props};
use crate::expr::ids_view;

/// The effect of substituting the pattern `p` under the binding `m`: the
/// e-graph after all insertions, the e-class of the instantiated tree, and
/// whether every inserted piece (and every wildcard target) was already
/// present.  A wildcard substitutes to its bound class without touching
/// the e-graph; an unbound wildcard (ruled out by `covers`) substitutes to
/// class 0.
pub open spec fn spec_subst(eg: EGraphV, p: PatternV, m: WildMapV) -> (EGraphV, int, bool)
    decreases p,
{
    match p {
        PatternV::Wildcard { name } => (
            eg,
            match wm_get(m, name) {
                Some(c) => c,
                None => 0,
            },
            true,
        ),
        PatternV::Expr { op, children } => {
            let (eg1, ids, wt1) = spec_subst_children(eg, children, m);
            let (eg2, id, wt2) = eg1.spec_add(ENodeV { op, children: ids });
            (eg2, id, wt1 && wt2)
        },
    }
}

/// Substituting a sequence of patterns left to right.
pub open spec fn spec_subst_children(eg: EGraphV, ch: Seq<PatternV>, m: WildMapV) -> (
    EGraphV,
    Seq<int>,
    bool,
)
    decreases ch,
{
    if ch.len() == 0 {
        (eg, Seq::empty(), true)
    } else {
        let (eg1, ids, wt1) = spec_subst_children(eg, ch.drop_last(), m);
        let (eg2, id, wt2) = spec_subst(eg1, ch.last(), m);
        (eg2, ids.push(id), wt1 && wt2)
    }
}

/// A wildcard of a sub-pattern is a wildcard of the whole pattern, so a
/// covering binding covers every sub-pattern.
pub proof fn lemma_covers_child(m: WildMapV, p: PatternV, i: int)
    requires
        covers(m, p),
        p is Expr,
        0 <= i < p->Expr_children.len(),
    ensures
        covers(m, p->Expr_children[i]),
{
    assert forall|w: Seq<char>| #[trigger] has_wildcard(p->Expr_children[i], w) implies wm_has(
        m,
        w,
    ) by {
        assert(has_wildcard(p, w));
    }
}

/// Substitution keeps the e-graph well formed, only grows it, never
/// re-leads an existing id, and changes nothing at all when everything was
/// already present.  Under a covering, in-range binding the resulting id
/// is a valid e-class.
pub proof fn lemma_spec_subst_props(eg: EGraphV, p: PatternV, m: WildMapV)
    requires
        eg.wf(),
        wm_in_range(eg, m),
        covers(m, p),
    ensures
        ({
            let (eg2, id, wt) = spec_subst(eg, p, m);
            &&& eg2.wf()
            &&& eg.n() <= eg2.n()
            &&& forall|a: int| 0 <= a < eg.n() ==> eg2.canon(a) == eg.canon(a)
            &&& (wt ==> eg2 == eg)
            &&& 0 <= id < eg2.n()
        }),
    decreases p,
{
    match p {
        PatternV::Wildcard { name } => {
            assert(has_wildcard(p, name));
            assert(wm_has(m, name));
            lemma_wm_get_some_exists(m, name);
            let q = choose|q: int|
                0 <= q < m.len() && #[trigger] m[q] == (name, wm_get(m, name)->Some_0);
            assert(0 <= m[q].1 < eg.n());
        },
        PatternV::Expr { op, children } => {
            assert forall|i: int| 0 <= i < children.len() implies covers(
                m,
                #[trigger] children[i],
            ) by {
                lemma_covers_child(m, p, i);
            }
            lemma_spec_subst_children_props(eg, children, m);
            let (eg1, ids, wt1) = spec_subst_children(eg, children, m);
            let node = ENodeV { op, children: ids };
            assert(eg1.node_in_range(node));
            lemma_spec_add_props(eg1, node);
        },
    }
}

/// As `lemma_spec_subst_props`, for a sequence of patterns; in addition
/// every produced id is a valid e-class of the final e-graph.
pub proof fn lemma_spec_subst_children_props(eg: EGraphV, ch: Seq<PatternV>, m: WildMapV)
    requires
        eg.wf(),
        wm_in_range(eg, m),
        forall|i: int| 0 <= i < ch.len() ==> covers(m, #[trigger] ch[i]),
    ensures
        ({
            let (eg2, ids, wt) = spec_subst_children(eg, ch, m);
            &&& eg2.wf()
            &&& eg.n() <= eg2.n()
            &&& forall|a: int| 0 <= a < eg.n() ==> eg2.canon(a) == eg.canon(a)
            &&& (wt ==> eg2 == eg)
            &&& ids.len() == ch.len()
            &&& forall|i: int| 0 <= i < ids.len() ==> 0 <= #[trigger] ids[i] < eg2.n()
        }),
    decreases ch,
{
    if ch.len() > 0 {
        assert forall|i: int| 0 <= i < ch.drop_last().len() implies covers(
            m,
            #[trigger] ch.drop_last()[i],
        ) by {
            assert(ch.drop_last()[i] == ch[i]);
        }
        lemma_spec_subst_children_props(eg, ch.drop_last(), m);
        let (eg1, ids, wt1) = spec_subst_children(eg, ch.drop_last(), m);
        assert(covers(m, ch.last()));
        lemma_spec_subst_props(eg1, ch.last(), m);
        let (eg2, id, wt2) = spec_subst(eg1, ch.last(), m);
        assert forall|i: int| 0 <= i < ids.push(id).len() implies 0 <= #[trigger] ids.push(id)[i]
            < eg2.n() by {
            if i < ids.len() {
                assert(ids.push(id)[i] == ids[i]);
            }
        }
        if !(wt1 && wt2) {
        } else {
            assert(eg1 == eg);
            assert(eg2 == eg1);
        }
    }
}

impl Pattern {
    /// Build the e-node tree denoted by this pattern under `mapping`,
    /// inserting into the e-graph; wildcards resolve to their bound
    /// classes.  Returns the e-class of the whole tree.
    pub fn subst_and_find(&self, egraph: &mut EGraph, mapping: &WildMap) -> (r: Id)
        requires
            old(egraph)@.wf(),
            wm_in_range(old(egraph)@, mapping@),
            covers(mapping@, self@),
        ensures
            ({
                let (eg2, id, wt) = spec_subst(old(egraph)@, self@, mapping@);
                final(egraph)@ == eg2 && r as int == id
            }),
    {
        let res = self.apply_rec(egraph, mapping);
        res.id
    }

    /// As `subst_and_find`, also reporting whether the whole tree (and
    /// every wildcard target) was already present in the e-graph.
    #[verifier::loop_isolation(false)]
    pub(crate) fn apply_rec(&self, egraph: &mut EGraph, mapping: &WildMap) -> (r: AddResult)
        requires
            old(egraph)@.wf(),
            wm_in_range(old(egraph)@, mapping@),
            covers(mapping@, self@),
        ensures
            ({
                let (eg2, id, wt) = spec_subst(old(egraph)@, self@, mapping@);
                final(egraph)@ == eg2 && r.id as int == id && r.was_there == wt
            }),
        decreases *self,
    {
        let ghost eg0 = egraph@;
        let ghost pv = self@;
        let ghost mv = mapping@;
        match self {
            Pattern::Wildcard(w) => {
                proof {
                    assert(has_wildcard(pv, w@));
                    assert(wm_has(mv, w@));
                }
                let id_opt = mapping.get(w);
                let id = id_opt.unwrap();
                AddResult { was_there: true, id }
            },
            Pattern::Expr(e) => {
                proof {
                    assert(*e == self->Expr_0);
                    lemma_view_expr(*self);
                }
                let ghost chv = pv->Expr_children;
                let mut ids: Vec<Id> = Vec::new();
                let mut everything_was_there = true;
                let mut i: usize = 0;
                proof {
                    assert(chv.take(0) =~= Seq::<PatternV>::empty());
                }
                while i < e.children.len()
                    invariant
                        i <= e.children.len(),
                        ids@.len() == i as int,
                        egraph@.wf(),
                        eg0.n() <= egraph@.n(),
                        ({
                            let (eg1, sids, wt1) = spec_subst_children(eg0, chv.take(i as int), mv);
                            egraph@ == eg1 && ids_view(ids@) == sids && everything_was_there == wt1
                        }),
                    decreases e.children.len() - i,
                {
                    proof {
                        lemma_child_decreases(*self, i as int);
                        assert(chv[i as int] == e.children@[i as int]@);
                        lemma_covers_child(mv, pv, i as int);
                        assert forall|q: int| 0 <= q < mv.len() implies 0 <= (#[trigger] mv[q]).1
                            < egraph@.n() by {
                            assert(0 <= mv[q].1 < eg0.n());
                        }
                    }
                    let ghost eg_pre = egraph@;
                    let add = e.children[i].apply_rec(egraph, mapping);
                    everything_was_there = everything_was_there && add.was_there;
                    ids.push(add.id);
                    proof {
                        assert(chv.take(i + 1).drop_last() =~= chv.take(i as int));
                        assert(chv.take(i + 1).last() == chv[i as int]);
                        let (eg1, sids, wt1) = spec_subst_children(eg0, chv.take(i as int), mv);
                        let (eg2, id, wt2) = spec_subst(eg_pre, chv[i as int], mv);
                        assert(ids_view(ids@) =~= sids.push(id));
                        lemma_spec_subst_props(eg_pre, chv[i as int], mv);
                    }
                    i += 1;
                }
                proof {
                    assert(chv.take(e.children@.len() as int) =~= chv);
                    assert forall|q: int| 0 <= q < chv.len() implies covers(
                        mv,
                        #[trigger] chv[q],
                    ) by {
                        lemma_covers_child(mv, pv, q);
                    }
                    let (eg1, sids, wt1) = spec_subst_children(eg0, chv, mv);
                    lemma_spec_subst_children_props(eg0, chv, mv);
                    assert(egraph@.node_in_range(ENodeV { op: e.op@, children: sids }));
                }
                let enode = ENode { op: e.op.clone(), children: ids };
                proof {
                    assert(enode@.children == ids_view(ids@));
                }
                let res = egraph.add(enode);
                proof {
                    let (eg1, sids, wt1) = spec_subst_children(eg0, chv, mv);
                    let (eg2, id, wt2) = eg1.spec_add(ENodeV { op: e.op@, children: sids });
                    assert(final(egraph)@ == eg2);
                }
                AddResult { was_there: res.was_there && everything_was_there, id: res.id }
            },
        }
    }
}

} // verus!

verus! {

/// The two maps bind every name identically.
pub open spec fn map_equiv(m1: WildMapV, m2: WildMapV) -> bool {
    forall|w: Seq<char>| #![trigger wm_get(m1, w)] wm_get(m1, w) == wm_get(m2, w)
}

/// Every bound name occurs in the pattern.
pub open spec fn wm_keys_in(m: WildMapV, p: PatternV) -> bool {
    forall|q: int| 0 <= q < m.len() ==> has_wildcard(p, (#[trigger] m[q]).0)
}

/// Some returned map binds exactly as `m` does.
pub open spec fn found_equiv(r: Seq<WildMap>, m: WildMapV) -> bool {
    exists|j: int| 0 <= j < r.len() && map_equiv((#[trigger] r[j])@, m)
}

/// The e-node of `p`'s class that witnesses a match, as a position in the
/// class's node list.
pub open spec fn node_matches_at(eg: EGraphV, p: PatternV, c: int, t: int, m: WildMapV) -> bool {
    &&& 0 <= t < eg.class_nodes(c).len()
    &&& eg.class_nodes(c)[t].op == p->Expr_op
    &&& eg.class_nodes(c)[t].children.len() == p->Expr_children.len()
    &&& forall|i: int|
        0 <= i < p->Expr_children.len() ==> realizes(
            eg,
            #[trigger] p->Expr_children[i],
            eg.class_nodes(c)[t].children[i],
            m,
        )
}

/// A realizable operator pattern has a witnessing position in the class's
/// node list.
pub proof fn lemma_realizes_position(eg: EGraphV, p: PatternV, c: int, m: WildMapV)
    requires
        eg.wf(),
        p is Expr,
        realizes(eg, p, c, m),
    ensures
        exists|t: int| #[trigger] node_matches_at(eg, p, c, t, m),
{
    let op = p->Expr_op;
    let children = p->Expr_children;
    let k = choose|k: int|
        0 <= k < eg.nodes.len() && eg.leaders[k] == c && (#[trigger] eg.nodes[k]).op == op
            && eg.nodes[k].children.len() == children.len() && (forall|i: int|
            0 <= i < children.len() ==> realizes(
                eg,
                #[trigger] children[i],
                eg.canon(eg.nodes[k].children[i]),
                m,
            ));
    crate::egraph::lemma_class_nodes_position(eg, c, k, eg.nodes.len() as int);
    let t = choose|t: int|
        0 <= t < eg.class_nodes_upto(c, eg.nodes.len() as int).len()
            && #[trigger] eg.class_nodes_upto(c, eg.nodes.len() as int)[t] == eg.canon_node(
            eg.nodes[k],
        );
    assert(eg.class_nodes(c)[t] == eg.canon_node(eg.nodes[k]));
    assert(eg.class_nodes(c)[t].children.len() == children.len());
    assert forall|i: int| 0 <= i < children.len() implies realizes(
        eg,
        #[trigger] children[i],
        eg.class_nodes(c)[t].children[i],
        m,
    ) by {
        assert(eg.class_nodes(c)[t].children[i] == eg.canon(eg.nodes[k].children[i]));
    }
    assert(node_matches_at(eg, p, c, t, m));
}

} // verus!

verus! {

/// `m` restricted to the names that occur in `p`, keeping order.
pub open spec fn wm_restrict(m: WildMapV, p: PatternV) -> WildMapV
    decreases m.len(),
{
    if m.len() == 0 {
        Seq::empty()
    } else {
        let rest = wm_restrict(m.drop_first(), p);
        if has_wildcard(p, m[0].0) {
            seq![m[0]] + rest
        } else {
            rest
        }
    }
}

/// Restriction keeps exactly the bindings of names in `p`, stays well
/// formed, and its keys are the kept names.
pub proof fn lemma_wm_restrict(m: WildMapV, p: PatternV)
    requires
        wm_wf(m),
    ensures
        wm_wf(wm_restrict(m, p)),
        wm_keys_in(wm_restrict(m, p), p),
        forall|w: Seq<char>|
            #![trigger wm_get(wm_restrict(m, p), w)]
            wm_get(wm_restrict(m, p), w) == if has_wildcard(p, w) {
                wm_get(m, w)
            } else {
                None
            },
    decreases m.len(),
{
    let r = wm_restrict(m, p);
    if m.len() > 0 {
        let t = m.drop_first();
        assert forall|i: int, j: int| 0 <= i < j < t.len() implies t[i].0 != t[j].0 by {
            assert(t[i] == m[i + 1]);
            assert(t[j] == m[j + 1]);
        }
        lemma_wm_restrict(t, p);
        let rt = wm_restrict(t, p);
        if has_wildcard(p, m[0].0) {
            assert forall|q: int| 0 <= q < rt.len() implies exists|x: int|
                0 <= x < t.len() && t[x] == #[trigger] rt[q] by {
                lemma_wm_restrict_entries(t, p, q);
            }
            assert forall|i: int, j: int| 0 <= i < j < r.len() implies r[i].0 != r[j].0 by {
                if i == 0 {
                    assert(r[j] == rt[j - 1]);
                    lemma_wm_restrict_entries(t, p, j - 1);
                    let x = choose|x: int| 0 <= x < t.len() && t[x] == rt[j - 1];
                    assert(m[x + 1] == t[x]);
                    assert(m[0].0 != m[x + 1].0);
                } else {
                    assert(r[i] == rt[i - 1]);
                    assert(r[j] == rt[j - 1]);
                }
            }
            assert forall|q: int| 0 <= q < r.len() implies has_wildcard(p, (#[trigger] r[q]).0) by {
                if q > 0 {
                    assert(r[q] == rt[q - 1]);
                }
            }
            assert forall|w: Seq<char>|
                #![trigger wm_get(r, w)]
                wm_get(r, w) == (if has_wildcard(p, w) {
                    wm_get(m, w)
                } else {
                    None
                }) by {
                assert(r[0] == m[0]);
                assert(r.drop_first() =~= rt);
                if m[0].0 == w {
                    assert(wm_get(r, w) == Some(m[0].1));
                    assert(wm_get(m, w) == Some(m[0].1));
                    assert(has_wildcard(p, w));
                } else {
                    assert(wm_get(r, w) == wm_get(rt, w));
                    assert(wm_get(rt, w) == (if has_wildcard(p, w) {
                        wm_get(t, w)
                    } else {
                        None
                    }));
                    assert(wm_get(m, w) == wm_get(t, w));
                }
            }
        } else {
            assert forall|w: Seq<char>|
                #![trigger wm_get(r, w)]
                wm_get(r, w) == (if has_wildcard(p, w) {
                    wm_get(m, w)
                } else {
                    None
                }) by {
                if has_wildcard(p, w) {
                    assert(m[0].0 != w);
                }
            }
        }
    }
}

/// Every entry of a restriction is an entry of the original map.
pub proof fn lemma_wm_restrict_entries(m: WildMapV, p: PatternV, q: int)
    requires
        0 <= q < wm_restrict(m, p).len(),
    ensures
        exists|x: int| 0 <= x < m.len() && m[x] == #[trigger] wm_restrict(m, p)[q],
    decreases m.len(),
{
    let r = wm_restrict(m, p);
    let rt = wm_restrict(m.drop_first(), p);
    if has_wildcard(p, m[0].0) && q == 0 {
        assert(m[0] == r[0]);
    } else {
        let q2 = if has_wildcard(p, m[0].0) {
            q - 1
        } else {
            q
        };
        lemma_wm_restrict_entries(m.drop_first(), p, q2);
        let x = choose|x: int| 0 <= x < m.drop_first().len() && m.drop_first()[x] == rt[q2];
        assert(m[x + 1] == m.drop_first()[x]);
        assert(r[q] == rt[q2]);
    }
}

/// Realizability depends only on what the binding says of the pattern's
/// own wildcards.
pub proof fn lemma_realizes_agrees(eg: EGraphV, p: PatternV, c: int, m1: WildMapV, m2: WildMapV)
    requires
        realizes(eg, p, c, m1),
        forall|w: Seq<char>| #[trigger] has_wildcard(p, w) ==> wm_get(m1, w) == wm_get(m2, w),
    ensures
        realizes(eg, p, c, m2),
    decreases p,
{
    match p {
        PatternV::Wildcard { name } => {
            assert(has_wildcard(p, name));
        },
        PatternV::Expr { op, children } => {
            let k = choose|k: int|
                0 <= k < eg.nodes.len() && eg.leaders[k] == c && (#[trigger] eg.nodes[k]).op == op
                    && eg.nodes[k].children.len() == children.len() && (forall|i: int|
                    0 <= i < children.len() ==> realizes(
                        eg,
                        #[trigger] children[i],
                        eg.canon(eg.nodes[k].children[i]),
                        m1,
                    ));
            assert forall|i: int| 0 <= i < children.len() implies realizes(
                eg,
                #[trigger] children[i],
                eg.canon(eg.nodes[k].children[i]),
                m2,
            ) by {
                assert forall|w: Seq<char>| #[trigger] has_wildcard(children[i], w) implies wm_get(
                    m1,
                    w,
                ) == wm_get(m2, w) by {
                    assert(has_wildcard(p, w));
                }
                lemma_realizes_agrees(eg, children[i], eg.canon(eg.nodes[k].children[i]), m1, m2);
            }
            assert(eg.nodes[k].op == op);
        },
    }
}

/// The index in the product of a given choice of one element per factor.
pub proof fn lemma_product_with_select(
    xs: Seq<WildMapV>,
    rest: Seq<Seq<WildMapV>>,
    a: int,
    b: int,
) -> (t: int)
    requires
        0 <= a < xs.len(),
        0 <= b < rest.len(),
    ensures
        0 <= t < product_with(xs, rest).len(),
        product_with(xs, rest)[t] == seq![xs[a]] + rest[b],
    decreases a,
{
    let head = prepend_all(xs[0], rest);
    assert(head.len() == rest.len());
    if a == 0 {
        assert(head[b] == seq![xs[0]] + rest[b]);
        assert(product_with(xs, rest)[b] == head[b]);
        b
    } else {
        let t2 = lemma_product_with_select(xs.drop_first(), rest, a - 1, b);
        assert(xs.drop_first()[a - 1] == xs[a]);
        assert(product_with(xs, rest)[head.len() + t2] == product_with(xs.drop_first(), rest)[t2]);
        head.len() + t2
    }
}

/// The index in the product of the tuple that picks `vss[i][js[i]]` from
/// each factor.
pub proof fn lemma_product_select(vss: Seq<Seq<WildMapV>>, js: Seq<int>) -> (t: int)
    requires
        js.len() == vss.len(),
        forall|i: int| 0 <= i < vss.len() ==> 0 <= #[trigger] js[i] < vss[i].len(),
    ensures
        0 <= t < seq_product(vss).len(),
        seq_product(vss)[t] == Seq::new(vss.len(), |i: int| vss[i][js[i]]),
    decreases vss.len(),
{
    if vss.len() == 0 {
        assert(seq_product(vss)[0] =~= Seq::new(0, |i: int| vss[i][js[i]]));
        0
    } else {
        let vt = vss.drop_first();
        let jt = js.drop_first();
        assert forall|i: int| 0 <= i < vt.len() implies 0 <= #[trigger] jt[i] < vt[i].len() by {
            assert(jt[i] == js[i + 1]);
            assert(vt[i] == vss[i + 1]);
        }
        let t2 = lemma_product_select(vt, jt);
        let t = lemma_product_with_select(vss[0], seq_product(vt), js[0], t2);
        assert(seq_product(vss)[t] == seq![vss[0][js[0]]] + seq_product(vt)[t2]);
        assert(seq![vss[0][js[0]]] + Seq::new(vt.len(), |i: int| vt[i][jt[i]]) =~= Seq::new(
            vss.len(),
            |i: int| vss[i][js[i]],
        ));
        t
    }
}

/// `m` agrees with every entry of every component of the tuple.
pub open spec fn tuple_consistent(tupv: Seq<WildMapV>, m: WildMapV) -> bool {
    forall|i: int, q: int|
        0 <= i < tupv.len() && 0 <= q < tupv[i].len() ==> wm_get(m, (#[trigger] tupv[i][q]).0)
            == Some(tupv[i][q].1)
}

/// Every entry of `cm` is an entry of some component of the tuple.
pub open spec fn entries_from(cm: WildMapV, tupv: Seq<WildMapV>) -> bool {
    forall|q: int|
        0 <= q < cm.len() ==> exists|i: int, x: int|
            0 <= i < tupv.len() && 0 <= x < tupv[i].len() && #[trigger] cm[q] == tupv[i][x]
}

/// A conflicting insertion refutes every binding consistent with the
/// whole tuple: the two clashing values both come from tuple entries with
/// the same name.
pub proof fn lemma_conflict_inconsistent(
    tv: Seq<WildMapV>,
    pre: WildMapV,
    pair: (Seq<char>, int),
    old_v: int,
    jj: int,
    pi: int,
)
    requires
        entries_from(pre, tv),
        wm_get(pre, pair.0) == Some(old_v),
        0 <= jj < tv.len(),
        0 <= pi < tv[jj].len(),
        tv[jj][pi] == pair,
        old_v != pair.1,
    ensures
        forall|m: WildMapV| !tuple_consistent(tv, m),
{
    assert forall|m: WildMapV| !tuple_consistent(tv, m) by {
        if tuple_consistent(tv, m) {
            lemma_wm_get_some_exists(pre, pair.0);
            let q = choose|q: int| 0 <= q < pre.len() && #[trigger] pre[q] == (pair.0, old_v);
            let (i0, x0) = choose|i0: int, x0: int|
                0 <= i0 < tv.len() && 0 <= x0 < tv[i0].len() && #[trigger] pre[q] == tv[i0][x0];
            assert(wm_get(m, pair.0) == Some(old_v));
            assert(wm_get(m, pair.0) == Some(pair.1));
            assert(false);
        }
    }
}

/// A successful merge binds exactly as any binding consistent with the
/// tuple does: every entry of the merge comes from the tuple (so agrees),
/// and every name such a binding knows is covered by some component.
pub proof fn lemma_merge_equiv(pv: PatternV, tv: Seq<WildMapV>, cm: WildMapV)
    requires
        pv is Expr,
        tv.len() == pv->Expr_children.len(),
        entries_from(cm, tv),
        forall|i: int| 0 <= i < tv.len() ==> covers(#[trigger] tv[i], pv->Expr_children[i]),
        forall|i: int| 0 <= i < tv.len() ==> wm_extends(cm, #[trigger] tv[i]),
    ensures
        forall|m: WildMapV|
            wm_wf(m) && wm_keys_in(m, pv) && #[trigger] tuple_consistent(tv, m) ==> map_equiv(
                cm,
                m,
            ),
{
    let chv = pv->Expr_children;
    assert forall|m: WildMapV|
        wm_wf(m) && wm_keys_in(m, pv) && #[trigger] tuple_consistent(tv, m) implies map_equiv(
        cm,
        m,
    ) by {
        assert forall|x: Seq<char>| #![trigger wm_get(cm, x)] wm_get(cm, x) == wm_get(m, x) by {
            if wm_get(cm, x) is Some {
                lemma_wm_get_some_exists(cm, x);
                let q = choose|q: int|
                    0 <= q < cm.len() && #[trigger] cm[q] == (x, wm_get(cm, x)->Some_0);
                let (i0, x0) = choose|i0: int, x0: int|
                    0 <= i0 < tv.len() && 0 <= x0 < tv[i0].len() && #[trigger] cm[q] == tv[i0][x0];
                assert(wm_get(m, (tv[i0][x0]).0) == Some(tv[i0][x0].1));
            } else {
                if wm_get(m, x) is Some {
                    lemma_wm_get_some_exists(m, x);
                    let qq = choose|qq: int|
                        0 <= qq < m.len() && #[trigger] m[qq] == (x, wm_get(m, x)->Some_0);
                    assert(has_wildcard(pv, m[qq].0));
                    let i = choose|i: int| 0 <= i < chv.len() && has_wildcard(#[trigger] chv[i], x);
                    assert(covers(tv[i], chv[i]));
                    assert(wm_has(tv[i], x));
                    lemma_wm_get_some_exists(tv[i], x);
                    let q2 = choose|q2: int|
                        0 <= q2 < tv[i].len() && #[trigger] tv[i][q2] == (
                            x,
                            wm_get(tv[i], x)->Some_0,
                        );
                    assert(wm_extends(cm, tv[i]));
                    assert(wm_get(cm, (tv[i][q2]).0) == Some(tv[i][q2].1));
                    assert(false);
                }
            }
        }
    }
}

/// Any binding witnessing a match through one e-node is consistent with
/// the tuple of its per-child restrictions, which the factor lists hold
/// (by the children's completeness), so some product tuple fits it.
pub proof fn lemma_selection_consistent(
    eg: EGraphV,
    pv: PatternV,
    nodev: ENodeV,
    vss: Seq<Seq<WildMapV>>,
    m: WildMapV,
) -> (ti0: int)
    requires
        pv is Expr,
        vss.len() == pv->Expr_children.len(),
        nodev.children.len() == vss.len(),
        wm_wf(m),
        wm_keys_in(m, pv),
        forall|i: int, j: int|
            0 <= i < vss.len() && 0 <= j < vss[i].len() ==> good_mapping(
                eg,
                pv->Expr_children[i],
                nodev.children[i],
                #[trigger] vss[i][j],
            ),
        forall|i: int, m2: WildMapV|
            0 <= i < vss.len() && wm_wf(m2) && wm_keys_in(m2, pv->Expr_children[i])
                && #[trigger] realizes(eg, pv->Expr_children[i], nodev.children[i], m2) ==> exists|
                j: int,
            |
                0 <= j < vss[i].len() && map_equiv(#[trigger] vss[i][j], m2),
        forall|i: int|
            0 <= i < vss.len() ==> realizes(
                eg,
                #[trigger] pv->Expr_children[i],
                nodev.children[i],
                m,
            ),
    ensures
        0 <= ti0 < seq_product(vss).len(),
        tuple_consistent(seq_product(vss)[ti0], m),
{
    let chv = pv->Expr_children;
    let js = Seq::new(
        vss.len(),
        |i: int|
            choose|j: int| 0 <= j < vss[i].len() && map_equiv(vss[i][j], wm_restrict(m, chv[i])),
    );
    assert forall|i: int| 0 <= i < vss.len() implies 0 <= #[trigger] js[i] < vss[i].len()
        && map_equiv(vss[i][js[i]], wm_restrict(m, chv[i])) by {
        let mi = wm_restrict(m, chv[i]);
        lemma_wm_restrict(m, chv[i]);
        assert forall|w: Seq<char>| #[trigger] has_wildcard(chv[i], w) implies wm_get(m, w)
            == wm_get(mi, w) by {}
        lemma_realizes_agrees(eg, chv[i], nodev.children[i], m, mi);
        assert(exists|j: int| 0 <= j < vss[i].len() && map_equiv(#[trigger] vss[i][j], mi));
        assert(js[i] == (choose|j: int|
            0 <= j < vss[i].len() && map_equiv(vss[i][j], wm_restrict(m, chv[i]))));
    }
    let ti0 = lemma_product_select(vss, js);
    let tupv = seq_product(vss)[ti0];
    assert forall|i: int, q: int| 0 <= i < tupv.len() && 0 <= q < tupv[i].len() implies wm_get(
        m,
        (#[trigger] tupv[i][q]).0,
    ) == Some(tupv[i][q].1) by {
        assert(tupv[i] == vss[i][js[i]]);
        assert(good_mapping(eg, chv[i], nodev.children[i], vss[i][js[i]]));
        lemma_wm_wf_get_self(vss[i][js[i]], q);
        let mi = wm_restrict(m, chv[i]);
        lemma_wm_restrict(m, chv[i]);
        assert(wm_get(vss[i][js[i]], tupv[i][q].0) == Some(tupv[i][q].1));
        assert(wm_get(mi, tupv[i][q].0) == Some(tupv[i][q].1));
    }
    ti0
}

/// A map found among the returned ones is still found after a push.
pub proof fn lemma_found_equiv_push(r: Seq<WildMap>, x: WildMap, m: WildMapV)
    requires
        found_equiv(r, m),
    ensures
        found_equiv(r.push(x), m),
{
    let j = choose|j: int| 0 <= j < r.len() && map_equiv((#[trigger] r[j])@, m);
    assert(r.push(x)[j] == r[j]);
}

} // verus!
