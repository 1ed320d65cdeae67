//! Conditional rewrites: a named pair of patterns plus equality
//! side-conditions, with search over the whole e-graph and bounded
//! application (substitute, insert, union) of each found binding.

use vstd::prelude::*;

verus! {

use crate::Id;
use crate::egraph::{EGraph, EGraphV};
use crate::expr::ids_view;
use crate::pattern::{
    Pattern, PatternMatches, PatternV, WildcardSet, covers, has_wildcard, lemma_spec_subst_props,
    pm_good, search_post, spec_subst, wm_in_range, wms_view,
};
use crate::wildmap::{WildMap, WildMapV};
use vstd::string::StringExecFns;

/// An equality side-condition: two patterns that must substitute to the
/// same e-class for a rewrite to fire.
#[derive(Debug, PartialEq)]
pub struct Condition {
    pub lhs: Pattern,
    pub rhs: Pattern,
}

/// The mathematical value of a condition.
pub struct ConditionV {
    pub lhs: PatternV,
    pub rhs: PatternV,
}

impl View for Condition {
    type V = ConditionV;

    open spec fn view(&self) -> ConditionV {
        ConditionV { lhs: self.lhs@, rhs: self.rhs@ }
    }
}

/// The views of a sequence of conditions.
pub open spec fn conditions_view(s: Seq<Condition>) -> Seq<ConditionV> {
    s.map_values(|c: Condition| c@)
}

/// Whether `m` binds every wildcard of both sides of `c`.
pub open spec fn covers_condition(m: WildMapV, c: ConditionV) -> bool {
    covers(m, c.lhs) && covers(m, c.rhs)
}

/// Whether `m` binds every wildcard of every condition.
pub open spec fn covers_conditions(m: WildMapV, cs: Seq<ConditionV>) -> bool {
    forall|i: int| 0 <= i < cs.len() ==> covers_condition(m, #[trigger] cs[i])
}

/// The effect of checking one condition: both sides are substituted into
/// the e-graph (which may grow), and the condition holds when the two
/// resulting e-classes are identical.
pub open spec fn spec_check(eg: EGraphV, c: ConditionV, m: WildMapV) -> (EGraphV, bool) {
    let (eg1, i1, wt1) = spec_subst(eg, c.lhs, m);
    let (eg2, i2, wt2) = spec_subst(eg1, c.rhs, m);
    (eg2, i1 == i2)
}

/// The effect of checking conditions left to right, stopping at the first
/// failure.
pub open spec fn spec_check_all(eg: EGraphV, cs: Seq<ConditionV>, m: WildMapV) -> (EGraphV, bool)
    decreases cs.len(),
{
    if cs.len() == 0 {
        (eg, true)
    } else {
        let (eg1, ok) = spec_check(eg, cs[0], m);
        if !ok {
            (eg1, false)
        } else {
            spec_check_all(eg1, cs.drop_first(), m)
        }
    }
}

/// Checking a condition keeps the e-graph well formed, only grows it, and
/// never changes which existing e-classes are equal (it adds, never
/// unions).
pub proof fn lemma_spec_check_props(eg: EGraphV, c: ConditionV, m: WildMapV)
    requires
        eg.wf(),
        wm_in_range(eg, m),
        covers_condition(m, c),
    ensures
        ({
            let (eg2, ok) = spec_check(eg, c, m);
            &&& eg2.wf()
            &&& eg.n() <= eg2.n()
            &&& forall|a: int| 0 <= a < eg.n() ==> eg2.canon(a) == eg.canon(a)
        }),
{
    lemma_spec_subst_props(eg, c.lhs, m);
    let (eg1, i1, wt1) = spec_subst(eg, c.lhs, m);
    assert forall|q: int| 0 <= q < m.len() implies 0 <= (#[trigger] m[q]).1 < eg1.n() by {
        assert(0 <= m[q].1 < eg.n());
    }
    lemma_spec_subst_props(eg1, c.rhs, m);
}

/// As `lemma_spec_check_props`, for a whole condition list.
pub proof fn lemma_spec_check_all_props(eg: EGraphV, cs: Seq<ConditionV>, m: WildMapV)
    requires
        eg.wf(),
        wm_in_range(eg, m),
        covers_conditions(m, cs),
    ensures
        ({
            let (eg2, ok) = spec_check_all(eg, cs, m);
            &&& eg2.wf()
            &&& eg.n() <= eg2.n()
            &&& forall|a: int| 0 <= a < eg.n() ==> eg2.canon(a) == eg.canon(a)
        }),
    decreases cs.len(),
{
    if cs.len() > 0 {
        lemma_spec_check_props(eg, cs[0], m);
        let (eg1, ok) = spec_check(eg, cs[0], m);
        if ok {
            assert forall|q: int| 0 <= q < m.len() implies 0 <= (#[trigger] m[q]).1 < eg1.n() by {
                assert(0 <= m[q].1 < eg.n());
            }
            assert forall|i: int| 0 <= i < cs.drop_first().len() implies covers_condition(
                m,
                #[trigger] cs.drop_first()[i],
            ) by {
                assert(cs.drop_first()[i] == cs[i + 1]);
            }
            lemma_spec_check_all_props(eg1, cs.drop_first(), m);
        }
    }
}

impl Condition {
    /// Substitute both sides into the e-graph and compare the resulting
    /// e-classes.  May grow the e-graph; never merges classes.
    pub(crate) fn check(&self, egraph: &mut EGraph, mapping: &WildMap) -> (r: bool)
        requires
            old(egraph)@.wf(),
            wm_in_range(old(egraph)@, mapping@),
            covers_condition(mapping@, self@),
        ensures
            ({
                let (eg2, ok) = spec_check(old(egraph)@, self@, mapping@);
                final(egraph)@ == eg2 && r == ok
            }),
    {
        proof {
            lemma_spec_subst_props(old(egraph)@, self@.lhs, mapping@);
        }
        let lhs_id = self.lhs.subst_and_find(egraph, mapping);
        proof {
            assert forall|q: int| 0 <= q < mapping@.len() implies 0 <= (#[trigger] mapping@[q]).1
                < egraph@.n() by {
                assert(0 <= mapping@[q].1 < old(egraph)@.n());
            }
        }
        let rhs_id = self.rhs.subst_and_find(egraph, mapping);
        lhs_id == rhs_id
    }
}

/// The effect of applying a rewrite's right-hand side under each binding
/// in turn: before each binding the size limit is checked (a soft,
/// cumulative ceiling: once exceeded, nothing further is applied); then
/// the conditions are evaluated left to right, and if all hold the
/// substituted right-hand side is unioned with the matched class.  The
/// produced ids are the union leaders of the applications that added
/// something new.
pub open spec fn spec_apply(
    eg: EGraphV,
    rhs: PatternV,
    cs: Seq<ConditionV>,
    eclass: int,
    mappings: Seq<WildMapV>,
    limit: int,
) -> (EGraphV, Seq<int>)
    decreases mappings.len(),
{
    if mappings.len() == 0 {
        (eg, Seq::empty())
    } else if eg.n() > limit {
        (eg, Seq::empty())
    } else {
        let (eg1, ok) = spec_check_all(eg, cs, mappings[0]);
        if !ok {
            spec_apply(eg1, rhs, cs, eclass, mappings.drop_first(), limit)
        } else {
            let (eg2, id, wt) = spec_subst(eg1, rhs, mappings[0]);
            let (eg3, leader) = eg2.spec_union(eclass, id);
            let (eg4, rest) = spec_apply(eg3, rhs, cs, eclass, mappings.drop_first(), limit);
            (eg4, if wt {
                rest
            } else {
                seq![leader] + rest
            })
        }
    }
}

/// The effect of applying a rewrite to each per-class match in turn.
pub open spec fn spec_apply_matches(
    eg: EGraphV,
    rhs: PatternV,
    cs: Seq<ConditionV>,
    ms: Seq<PatternMatches>,
    limit: int,
) -> (EGraphV, Seq<int>)
    decreases ms.len(),
{
    if ms.len() == 0 {
        (eg, Seq::empty())
    } else {
        let (eg1, out1) = spec_apply(
            eg,
            rhs,
            cs,
            ms[0].eclass as int,
            wms_view(ms[0].mappings@),
            limit,
        );
        let (eg2, out2) = spec_apply_matches(eg1, rhs, cs, ms.drop_first(), limit);
        (eg2, out1 + out2)
    }
}

} // verus!

verus! {

use crate::egraph::lemma_spec_union_props;

impl PatternMatches {
    /// Apply `pattern` under each binding in order, while the e-graph is
    /// within `size_limit`: bindings whose conditions all hold have the
    /// substituted pattern unioned with the matched class; the returned
    /// ids are the union leaders of the applications that added something
    /// new.
    #[verifier::loop_isolation(false)]
    fn apply_conditionally_with_limit(
        &self,
        pattern: &Pattern,
        egraph: &mut EGraph,
        conditions: &Vec<Condition>,
        size_limit: usize,
    ) -> (r: Vec<Id>)
        requires
            old(egraph)@.wf(),
            self.mappings@.len() > 0,
            (self.eclass as int) < old(egraph)@.n(),
            forall|j: int|
                0 <= j < self.mappings@.len() ==> wm_in_range(
                    old(egraph)@,
                    (#[trigger] self.mappings@[j])@,
                ),
            forall|j: int|
                0 <= j < self.mappings@.len() ==> covers(
                    (#[trigger] self.mappings@[j])@,
                    pattern@,
                ),
            forall|j: int|
                0 <= j < self.mappings@.len() ==> covers_conditions(
                    (#[trigger] self.mappings@[j])@,
                    conditions_view(conditions@),
                ),
        ensures
            ({
                let (eg2, out) = spec_apply(
                    old(egraph)@,
                    pattern@,
                    conditions_view(conditions@),
                    self.eclass as int,
                    wms_view(self.mappings@),
                    size_limit as int,
                );
                final(egraph)@ == eg2 && ids_view(r@) == out
            }),
            final(egraph)@.wf(),
            old(egraph)@.n() <= final(egraph)@.n(),
    {
        let ghost eg0 = egraph@;
        let ghost pv = pattern@;
        let ghost csv = conditions_view(conditions@);
        let ghost ec = self.eclass as int;
        let ghost mvs = wms_view(self.mappings@);
        let ghost lim = size_limit as int;
        let mut applications: Vec<Id> = Vec::new();
        let mut mi: usize = 0;
        let mut stopped = false;
        proof {
            assert(mvs.skip(0) =~= mvs);
            assert(ids_view(applications@) =~= Seq::<int>::empty());
            assert(Seq::<int>::empty() + spec_apply(egraph@, pv, csv, ec, mvs, lim).1
                =~= spec_apply(egraph@, pv, csv, ec, mvs, lim).1);
        }
        while mi < self.mappings.len() && !stopped
            invariant
                mi <= self.mappings@.len(),
                egraph@.wf(),
                eg0.n() <= egraph@.n(),
                !stopped ==> ({
                    let (ega, outa) = spec_apply(egraph@, pv, csv, ec, mvs.skip(mi as int), lim);
                    spec_apply(eg0, pv, csv, ec, mvs, lim) == (
                        ega,
                        ids_view(applications@) + outa,
                    )
                }),
                stopped ==> spec_apply(eg0, pv, csv, ec, mvs, lim) == (
                    egraph@,
                    ids_view(applications@),
                ),
            decreases self.mappings@.len() - mi, (if stopped {
                0int
            } else {
                1int
            }),
        {
            let ghost eg_b = egraph@;
            let ghost mv = self.mappings@[mi as int]@;
            proof {
                assert(mvs.skip(mi as int)[0] == mvs[mi as int]);
                assert(mvs[mi as int] == mv);
                assert(mvs.skip(mi as int).drop_first() =~= mvs.skip(mi + 1));
                assert(mvs.skip(mi as int).len() > 0);
                assert forall|q: int| 0 <= q < mv.len() implies 0 <= (#[trigger] mv[q]).1
                    < egraph@.n() by {
                    assert(0 <= mv[q].1 < eg0.n());
                }
            }
            let before_size = egraph.total_size();
            if before_size > size_limit {
                proof {
                    let (ega, outa) = spec_apply(eg_b, pv, csv, ec, mvs.skip(mi as int), lim);
                    assert(ega == eg_b && outa =~= Seq::<int>::empty());
                    assert(ids_view(applications@) + outa =~= ids_view(applications@));
                }
                stopped = true;
            } else {
                let mapping = &self.mappings[mi];
                proof {
                    assert(mapping@ == mv);
                    assert(covers_conditions(mv, csv));
                    assert(covers(mv, pv));
                }
                let mut all_ok = true;
                let mut cix: usize = 0;
                let ghost eg_c0 = egraph@;
                proof {
                    assert(csv.skip(0) =~= csv);
                }
                while cix < conditions.len() && all_ok
                    invariant
                        cix <= conditions@.len(),
                        egraph@.wf(),
                        eg0.n() <= egraph@.n(),
                        all_ok ==> spec_check_all(eg_c0, csv, mv) == spec_check_all(
                            egraph@,
                            csv.skip(cix as int),
                            mv,
                        ),
                        !all_ok ==> spec_check_all(eg_c0, csv, mv) == (egraph@, false),
                    decreases conditions@.len() - cix,
                {
                    proof {
                        assert(csv[cix as int] == conditions@[cix as int]@);
                        assert(csv.skip(cix as int)[0] == csv[cix as int]);
                        assert(csv.skip(cix as int).drop_first() =~= csv.skip(cix + 1));
                        assert(covers_condition(mv, csv[cix as int]));
                        assert forall|q: int| 0 <= q < mv.len() implies 0 <= (#[trigger] mv[q]).1
                            < egraph@.n() by {
                            assert(0 <= mv[q].1 < eg0.n());
                        }
                    }
                    let ghost eg_cb = egraph@;
                    let ok = conditions[cix].check(egraph, mapping);
                    proof {
                        lemma_spec_check_props(eg_cb, csv[cix as int], mv);
                    }
                    if !ok {
                        all_ok = false;
                    }
                    cix += 1;
                }
                proof {
                    if all_ok {
                        assert(csv.skip(conditions@.len() as int) =~= Seq::<ConditionV>::empty());
                    }
                    assert(spec_check_all(eg_c0, csv, mv) == (egraph@, all_ok));
                }
                if all_ok {
                    let ghost eg_s = egraph@;
                    proof {
                        assert forall|q: int| 0 <= q < mv.len() implies 0 <= (#[trigger] mv[q]).1
                            < egraph@.n() by {
                            assert(0 <= mv[q].1 < eg0.n());
                        }
                        lemma_spec_subst_props(eg_s, pv, mv);
                    }
                    let pattern_root = pattern.apply_rec(egraph, mapping);
                    proof {
                        lemma_spec_union_props(egraph@, ec, pattern_root.id as int);
                    }
                    let leader = egraph.union(self.eclass, pattern_root.id);
                    let ghost rest_state = egraph@;
                    if !pattern_root.was_there {
                        let ghost acc_pre = ids_view(applications@);
                        applications.push(leader);
                        proof {
                            assert(ids_view(applications@) =~= acc_pre + seq![leader as int]);
                            let (ega, outa) = spec_apply(
                                eg_b,
                                pv,
                                csv,
                                ec,
                                mvs.skip(mi as int),
                                lim,
                            );
                            let (egr, rest) = spec_apply(
                                rest_state,
                                pv,
                                csv,
                                ec,
                                mvs.skip(mi + 1),
                                lim,
                            );
                            assert(outa == seq![leader as int] + rest);
                            assert(acc_pre + (seq![leader as int] + rest) =~= (acc_pre + seq![
                                leader as int,
                            ]) + rest);
                        }
                    } else {
                        proof {
                            let (ega, outa) = spec_apply(
                                eg_b,
                                pv,
                                csv,
                                ec,
                                mvs.skip(mi as int),
                                lim,
                            );
                            let (egr, rest) = spec_apply(
                                rest_state,
                                pv,
                                csv,
                                ec,
                                mvs.skip(mi + 1),
                                lim,
                            );
                            assert(outa == rest);
                        }
                    }
                } else {
                    proof {
                        let (ega, outa) = spec_apply(eg_b, pv, csv, ec, mvs.skip(mi as int), lim);
                        let (egr, rest) = spec_apply(egraph@, pv, csv, ec, mvs.skip(mi + 1), lim);
                        assert(outa == rest);
                    }
                }
                mi += 1;
            }
        }
        proof {
            if !stopped {
                assert(mvs.skip(mvs.len() as int) =~= Seq::<WildMapV>::empty());
                let (ega, outa) = spec_apply(egraph@, pv, csv, ec, mvs.skip(mi as int), lim);
                assert(outa =~= Seq::<int>::empty());
                assert(ids_view(applications@) + outa =~= ids_view(applications@));
            }
        }
        applications
    }

    /// Apply `pattern` under every binding, unconditionally and without a
    /// size bound.
    pub fn apply(&self, pattern: &Pattern, egraph: &mut EGraph) -> (r: Vec<Id>)
        requires
            old(egraph)@.wf(),
            self.mappings@.len() > 0,
            (self.eclass as int) < old(egraph)@.n(),
            forall|j: int|
                0 <= j < self.mappings@.len() ==> wm_in_range(
                    old(egraph)@,
                    (#[trigger] self.mappings@[j])@,
                ),
            forall|j: int|
                0 <= j < self.mappings@.len() ==> covers(
                    (#[trigger] self.mappings@[j])@,
                    pattern@,
                ),
        ensures
            ({
                let (eg2, out) = spec_apply(
                    old(egraph)@,
                    pattern@,
                    Seq::<ConditionV>::empty(),
                    self.eclass as int,
                    wms_view(self.mappings@),
                    usize::MAX as int,
                );
                final(egraph)@ == eg2 && ids_view(r@) == out
            }),
            final(egraph)@.wf(),
            old(egraph)@.n() <= final(egraph)@.n(),
    {
        let conditions: Vec<Condition> = Vec::new();
        proof {
            assert(conditions_view(conditions@) =~= Seq::<ConditionV>::empty());
        }
        self.apply_conditionally_with_limit(pattern, egraph, &conditions, usize::MAX)
    }

    /// Apply `pattern` under every binding, unconditionally, while the
    /// e-graph is within `size_limit`.
    pub fn apply_with_limit(&self, pattern: &Pattern, egraph: &mut EGraph, size_limit: usize) -> (r:
        Vec<Id>)
        requires
            old(egraph)@.wf(),
            self.mappings@.len() > 0,
            (self.eclass as int) < old(egraph)@.n(),
            forall|j: int|
                0 <= j < self.mappings@.len() ==> wm_in_range(
                    old(egraph)@,
                    (#[trigger] self.mappings@[j])@,
                ),
            forall|j: int|
                0 <= j < self.mappings@.len() ==> covers(
                    (#[trigger] self.mappings@[j])@,
                    pattern@,
                ),
        ensures
            ({
                let (eg2, out) = spec_apply(
                    old(egraph)@,
                    pattern@,
                    Seq::<ConditionV>::empty(),
                    self.eclass as int,
                    wms_view(self.mappings@),
                    size_limit as int,
                );
                final(egraph)@ == eg2 && ids_view(r@) == out
            }),
            final(egraph)@.wf(),
            old(egraph)@.n() <= final(egraph)@.n(),
    {
        let conditions: Vec<Condition> = Vec::new();
        proof {
            assert(conditions_view(conditions@) =~= Seq::<ConditionV>::empty());
        }
        self.apply_conditionally_with_limit(pattern, egraph, &conditions, size_limit)
    }
}

} // verus!

verus! {

/// A named rewrite `lhs -> rhs`, guarded by equality side-conditions.
#[derive(Debug, PartialEq)]
pub struct Rewrite {
    pub name: String,
    pub lhs: Pattern,
    pub rhs: Pattern,
    pub conditions: Vec<Condition>,
}

/// Boundness: every wildcard of the right-hand side and of each
/// condition's sides appears in the left-hand side.
pub open spec fn rewrite_bound(r: Rewrite) -> bool {
    &&& forall|w: Seq<char>| #[trigger] has_wildcard(r.rhs@, w) ==> has_wildcard(r.lhs@, w)
    &&& forall|i: int, w: Seq<char>|
        0 <= i < r.conditions@.len() && #[trigger] has_wildcard((r.conditions@[i])@.lhs, w)
            ==> has_wildcard(r.lhs@, w)
    &&& forall|i: int, w: Seq<char>|
        0 <= i < r.conditions@.len() && #[trigger] has_wildcard((r.conditions@[i])@.rhs, w)
            ==> has_wildcard(r.lhs@, w)
}

/// What `flip` produces from `r`: the two sides swapped, the conditions
/// still empty, and the name suffixed.
pub open spec fn is_flip_of(f: Rewrite, r: Rewrite) -> bool {
    &&& f.lhs@ == r.rhs@
    &&& f.rhs@ == r.lhs@
    &&& r.conditions@.len() == 0
    &&& f.conditions@.len() == 0
    &&& f.name@ == r.name@ + "-flipped"@
}

/// Law: flipping twice restores the rewrite — both sides and the (empty)
/// conditions are structurally equal to the original's; only the name
/// differs, carrying the suffix twice.
pub proof fn lemma_flip_involution(r: Rewrite, f1: Rewrite, f2: Rewrite)
    requires
        is_flip_of(f1, r),
        is_flip_of(f2, f1),
    ensures
        f2.lhs@ == r.lhs@,
        f2.rhs@ == r.rhs@,
        f2.conditions@.len() == r.conditions@.len(),
        f2.name@ == r.name@ + "-flipped"@ + "-flipped"@,
{
}

/// A binding that covers a rewrite's left-hand side covers its right-hand
/// side and all its conditions, provided the rewrite is bound.
pub proof fn lemma_bound_covers(r: Rewrite, m: WildMapV)
    requires
        rewrite_bound(r),
        covers(m, r.lhs@),
    ensures
        covers(m, r.rhs@),
        covers_conditions(m, conditions_view(r.conditions@)),
{
    assert forall|i: int| 0 <= i < r.conditions@.len() implies covers_condition(
        m,
        #[trigger] conditions_view(r.conditions@)[i],
    ) by {
        assert(conditions_view(r.conditions@)[i] == (r.conditions@[i])@);
        assert forall|w: Seq<char>| #[trigger] has_wildcard((r.conditions@[i])@.lhs, w) implies
            crate::wildmap::wm_has(m, w) by {
            assert(has_wildcard(r.lhs@, w));
        }
        assert forall|w: Seq<char>| #[trigger] has_wildcard((r.conditions@[i])@.rhs, w) implies
            crate::wildmap::wm_has(m, w) by {
            assert(has_wildcard(r.lhs@, w));
        }
    }
}

impl Rewrite {
    /// Whether every wildcard of the right-hand side and of each
    /// condition appears in the left-hand side.
    #[verifier::loop_isolation(false)]
    pub fn is_bound(&self) -> (r: bool)
        ensures
            r == rewrite_bound(*self),
    {
        let mut bound = WildcardSet::default();
        self.lhs.insert_wildcards(&mut bound);
        proof {
            assert forall|w: Seq<char>| #[trigger] bound@.contains(w) implies has_wildcard(
                self.lhs@,
                w,
            ) by {}
        }
        let rhs_ok = self.rhs.is_bound(&bound);
        if !rhs_ok {
            proof {
                let w = choose|w: Seq<char>|
                    has_wildcard(self.rhs@, w) && !bound@.contains(w);
                assert(has_wildcard(self.rhs@, w) && !has_wildcard(self.lhs@, w));
            }
            return false;
        }
        let mut i: usize = 0;
        while i < self.conditions.len()
            invariant
                i <= self.conditions@.len(),
                forall|j: int, w: Seq<char>|
                    0 <= j < i && #[trigger] has_wildcard((self.conditions@[j])@.lhs, w)
                        ==> has_wildcard(self.lhs@, w),
                forall|j: int, w: Seq<char>|
                    0 <= j < i && #[trigger] has_wildcard((self.conditions@[j])@.rhs, w)
                        ==> has_wildcard(self.lhs@, w),
            decreases self.conditions@.len() - i,
        {
            let cond = &self.conditions[i];
            let l_ok = cond.lhs.is_bound(&bound);
            let r_ok = cond.rhs.is_bound(&bound);
            if !l_ok {
                proof {
                    let w = choose|w: Seq<char>|
                        has_wildcard(cond.lhs@, w) && !bound@.contains(w);
                    assert(has_wildcard((self.conditions@[i as int])@.lhs, w) && !has_wildcard(
                        self.lhs@,
                        w,
                    ));
                }
                return false;
            }
            if !r_ok {
                proof {
                    let w = choose|w: Seq<char>|
                        has_wildcard(cond.rhs@, w) && !bound@.contains(w);
                    assert(has_wildcard((self.conditions@[i as int])@.rhs, w) && !has_wildcard(
                        self.lhs@,
                        w,
                    ));
                }
                return false;
            }
            i += 1;
        }
        true
    }

    /// Swap the two sides, suffixing the name with `-flipped`.  Flipping
    /// makes no sense for conditional rewrites, so the conditions must be
    /// empty.
    pub fn flip(&self) -> (r: Self)
        requires
            self.conditions@.len() == 0,
        ensures
            is_flip_of(r, *self),
    {
        let name = self.name.clone().concat("-flipped");
        Rewrite { name, lhs: self.rhs.clone(), rhs: self.lhs.clone(), conditions: Vec::new() }
    }

    /// Search every e-class of the e-graph for the left-hand side.
    pub fn search<'a>(&'a self, egraph: &EGraph) -> (r: RewriteMatches<'a>)
        requires
            egraph@.wf(),
        ensures
            r.rewrite == *self,
            search_post(egraph@, self.lhs@, r.matches@),
    {
        RewriteMatches { rewrite: self, matches: self.lhs.search(egraph) }
    }

    /// Search, then apply every match without a size bound.  Returns the
    /// union leaders of the applications that added something new.
    pub fn run(&self, egraph: &mut EGraph) -> (r: Vec<Id>)
        requires
            old(egraph)@.wf(),
            rewrite_bound(*self),
        ensures
            final(egraph)@.wf(),
            old(egraph)@.n() <= final(egraph)@.n(),
            exists|pms: Seq<PatternMatches>|
                #![trigger spec_apply_matches(old(egraph)@, self.rhs@, conditions_view(self.conditions@), pms, usize::MAX as int)]
                {
                    &&& search_post(old(egraph)@, self.lhs@, pms)
                    &&& ({
                        let (eg2, out) = spec_apply_matches(
                            old(egraph)@,
                            self.rhs@,
                            conditions_view(self.conditions@),
                            pms,
                            usize::MAX as int,
                        );
                        final(egraph)@ == eg2 && ids_view(r@) == out
                    })
                },
    {
        let matches = self.search(egraph);
        let ghost pms = matches.matches@;
        let ids = matches.apply_with_limit(egraph, usize::MAX);
        proof {
            let (eg2, out) = spec_apply_matches(
                old(egraph)@,
                self.rhs@,
                conditions_view(self.conditions@),
                pms,
                usize::MAX as int,
            );
            assert(final(egraph)@ == eg2 && ids_view(ids@) == out);
        }
        ids
    }
}

/// The result of searching a rewrite's left-hand side over a whole
/// e-graph: the rewrite, and its matches per e-class.
pub struct RewriteMatches<'a> {
    pub rewrite: &'a Rewrite,
    pub matches: Vec<PatternMatches>,
}

/// The total number of bindings over a list of per-class matches.
pub open spec fn total_mappings(ms: Seq<PatternMatches>) -> int
    decreases ms.len(),
{
    if ms.len() == 0 {
        0
    } else {
        total_mappings(ms.drop_last()) + ms.last().mappings@.len()
    }
}

/// The count over a prefix never exceeds the count over the whole list.
pub proof fn lemma_total_mappings_prefix(ms: Seq<PatternMatches>, k: int)
    requires
        0 <= k <= ms.len(),
    ensures
        total_mappings(ms.take(k)) <= total_mappings(ms),
        0 <= total_mappings(ms.take(k)),
    decreases ms.len() - k,
{
    lemma_total_mappings_nonneg(ms.take(k));
    if k == ms.len() {
        assert(ms.take(k) =~= ms);
    } else {
        lemma_total_mappings_prefix(ms, k + 1);
        assert(ms.take(k + 1).drop_last() =~= ms.take(k));
        assert(ms.take(k + 1).last() == ms[k]);
    }
}

/// The count is never negative.
pub proof fn lemma_total_mappings_nonneg(ms: Seq<PatternMatches>)
    ensures
        0 <= total_mappings(ms),
    decreases ms.len(),
{
    if ms.len() > 0 {
        lemma_total_mappings_nonneg(ms.drop_last());
    }
}

impl<'a> RewriteMatches<'a> {
    /// Whether no e-class matched (no match carries any binding).
    #[verifier::loop_isolation(false)]
    pub fn is_empty(&self) -> (r: bool)
        ensures
            r == (forall|t: int|
                0 <= t < self.matches@.len() ==> (#[trigger] self.matches@[t]).mappings@.len()
                    == 0),
    {
        let mut t: usize = 0;
        while t < self.matches.len()
            invariant
                t <= self.matches@.len(),
                forall|j: int|
                    0 <= j < t ==> (#[trigger] self.matches@[j]).mappings@.len() == 0,
            decreases self.matches@.len() - t,
        {
            if self.matches[t].mappings.len() != 0 {
                return false;
            }
            t += 1;
        }
        true
    }

    /// The total number of bindings found, over all e-classes.  The count
    /// saturates at the machine limit (which a result held in memory cannot
    /// in fact reach); below it, the count is exact.
    #[verifier::loop_isolation(false)]
    pub fn len(&self) -> (r: usize)
        ensures
            total_mappings(self.matches@) <= usize::MAX ==> r as int == total_mappings(
                self.matches@,
            ),
            r as int <= total_mappings(self.matches@),
    {
        let mut total: usize = 0;
        let mut t: usize = 0;
        proof {
            assert(self.matches@.take(0) =~= Seq::<PatternMatches>::empty());
        }
        while t < self.matches.len()
            invariant
                t <= self.matches@.len(),
                total_mappings(self.matches@.take(t as int)) <= usize::MAX ==> total as int
                    == total_mappings(self.matches@.take(t as int)),
                total as int <= total_mappings(self.matches@.take(t as int)),
            decreases self.matches@.len() - t,
        {
            proof {
                lemma_total_mappings_prefix(self.matches@, t as int);
                assert(self.matches@.take(t + 1).drop_last() =~= self.matches@.take(t as int));
                assert(self.matches@.take(t + 1).last() == self.matches@[t as int]);
            }
            let ml = self.matches[t].mappings.len();
            if total <= usize::MAX - ml {
                total = total + ml;
            } else {
                total = usize::MAX;
            }
            t += 1;
        }
        proof {
            assert(self.matches@.take(self.matches@.len() as int) =~= self.matches@);
        }
        total
    }

    /// Apply the rewrite under every found binding, in search order, while
    /// the e-graph is within `size_limit`.  Returns the union leaders of
    /// the applications that added something new.
    #[verifier::loop_isolation(false)]
    pub fn apply_with_limit(&self, egraph: &mut EGraph, size_limit: usize) -> (r: Vec<Id>)
        requires
            old(egraph)@.wf(),
            rewrite_bound(*self.rewrite),
            forall|t: int|
                0 <= t < self.matches@.len() ==> pm_good(
                    old(egraph)@,
                    self.rewrite.lhs@,
                    #[trigger] self.matches@[t],
                ),
        ensures
            ({
                let (eg2, out) = spec_apply_matches(
                    old(egraph)@,
                    self.rewrite.rhs@,
                    conditions_view(self.rewrite.conditions@),
                    self.matches@,
                    size_limit as int,
                );
                final(egraph)@ == eg2 && ids_view(r@) == out
            }),
            final(egraph)@.wf(),
            old(egraph)@.n() <= final(egraph)@.n(),
    {
        let ghost eg0 = egraph@;
        let ghost rv = self.rewrite.rhs@;
        let ghost csv = conditions_view(self.rewrite.conditions@);
        let ghost msv = self.matches@;
        let ghost lim = size_limit as int;
        let mut out: Vec<Id> = Vec::new();
        let mut t: usize = 0;
        proof {
            assert(msv.skip(0) =~= msv);
            assert(ids_view(out@) =~= Seq::<int>::empty());
            assert(Seq::<int>::empty() + spec_apply_matches(egraph@, rv, csv, msv, lim).1
                =~= spec_apply_matches(egraph@, rv, csv, msv, lim).1);
        }
        while t < self.matches.len()
            invariant
                t <= msv.len(),
                egraph@.wf(),
                eg0.n() <= egraph@.n(),
                ({
                    let (ega, outa) = spec_apply_matches(egraph@, rv, csv, msv.skip(t as int), lim);
                    spec_apply_matches(eg0, rv, csv, msv, lim) == (ega, ids_view(out@) + outa)
                }),
            decreases msv.len() - t,
        {
            let ghost eg_b = egraph@;
            let pm = &self.matches[t];
            proof {
                assert(msv.skip(t as int)[0] == msv[t as int]);
                assert(msv.skip(t as int).drop_first() =~= msv.skip(t + 1));
                assert(pm_good(eg0, self.rewrite.lhs@, msv[t as int]));
                assert forall|j: int| 0 <= j < pm.mappings@.len() implies wm_in_range(
                    egraph@,
                    (#[trigger] pm.mappings@[j])@,
                ) && covers((#[trigger] pm.mappings@[j])@, self.rewrite.rhs@)
                    && covers_conditions(
                    (#[trigger] pm.mappings@[j])@,
                    conditions_view(self.rewrite.conditions@),
                ) by {
                    assert(crate::pattern::good_mapping(
                        eg0,
                        self.rewrite.lhs@,
                        pm.eclass as int,
                        pm.mappings@[j]@,
                    ));
                    assert forall|q: int| 0 <= q < pm.mappings@[j]@.len() implies 0 <= (
                    #[trigger] pm.mappings@[j]@[q]).1 < egraph@.n() by {
                        assert(0 <= pm.mappings@[j]@[q].1 < eg0.n());
                    }
                    lemma_bound_covers(*self.rewrite, pm.mappings@[j]@);
                }
            }
            let ids = pm.apply_conditionally_with_limit(
                &self.rewrite.rhs,
                egraph,
                &self.rewrite.conditions,
                size_limit,
            );
            let ghost acc_pre = ids_view(out@);
            let ghost ids_v = ids_view(ids@);
            let mut k: usize = 0;
            while k < ids.len()
                invariant
                    k <= ids@.len(),
                    ids_v == ids_view(ids@),
                    ids_view(out@) =~= acc_pre + ids_v.take(k as int),
                decreases ids@.len() - k,
            {
                let v = ids[k];
                out.push(v);
                proof {
                    assert(ids_v.take(k + 1) =~= ids_v.take(k as int).push(ids_v[k as int]));
                    assert(ids_view(out@) =~= (acc_pre + ids_v.take(k as int)).push(
                        ids_v[k as int],
                    ));
                    assert((acc_pre + ids_v.take(k as int)).push(ids_v[k as int]) =~= acc_pre
                        + ids_v.take(k + 1));
                }
                k += 1;
            }
            proof {
                assert(ids_v.take(ids_v.len() as int) =~= ids_v);
                assert(ids_view(out@) =~= acc_pre + ids_v);
                let (eg1, out1) = spec_apply(
                    eg_b,
                    rv,
                    csv,
                    msv[t as int].eclass as int,
                    wms_view(msv[t as int].mappings@),
                    lim,
                );
                assert(egraph@ == eg1 && ids_v == out1);
                let (ega, outa) = spec_apply_matches(egraph@, rv, csv, msv.skip(t + 1), lim);
                assert((acc_pre + out1) + outa =~= acc_pre + (out1 + outa));
            }
            t += 1;
        }
        proof {
            assert(msv.skip(msv.len() as int) =~= Seq::<PatternMatches>::empty());
            let (ega, outa) = spec_apply_matches(egraph@, rv, csv, msv.skip(t as int), lim);
            assert(outa =~= Seq::<int>::empty());
            assert(ids_view(out@) + outa =~= ids_view(out@));
        }
        out
    }
}

/// Law: a no-op apply leaves the e-graph's size unchanged.  If
/// substituting the right-hand side reports that everything was already
/// present, the substitution changed nothing, and the following union
/// creates no ids.
pub proof fn lemma_noop_apply_size(eg: EGraphV, rhs: PatternV, m: WildMapV, eclass: int)
    requires
        eg.wf(),
        wm_in_range(eg, m),
        covers(m, rhs),
        0 <= eclass < eg.n(),
    ensures
        ({
            let (eg2, id, wt) = spec_subst(eg, rhs, m);
            wt ==> eg2 == eg && eg2.spec_union(eclass, id).0.n() == eg.n()
        }),
{
    lemma_spec_subst_props(eg, rhs, m);
}

/// Whether, along the whole application, every binding's conditions
/// evaluate to false (checked against the e-graph as it stands at that
/// step, which condition checking itself may have grown).
pub open spec fn conditions_fail_throughout(
    eg: EGraphV,
    cs: Seq<ConditionV>,
    mappings: Seq<WildMapV>,
    limit: int,
) -> bool
    decreases mappings.len(),
{
    if mappings.len() == 0 {
        true
    } else if eg.n() > limit {
        true
    } else {
        let (eg1, ok) = spec_check_all(eg, cs, mappings[0]);
        !ok && conditions_fail_throughout(eg1, cs, mappings.drop_first(), limit)
    }
}

/// Law: condition invariance.  Applying a rewrite whose conditions
/// evaluate to false produces no applications and leaves the set of
/// e-class equalities unchanged: condition checking may intern new
/// e-nodes, but two previously existing ids are equal afterwards exactly
/// when they were equal before.
pub proof fn lemma_condition_invariance(
    eg: EGraphV,
    rhs: PatternV,
    cs: Seq<ConditionV>,
    eclass: int,
    mappings: Seq<WildMapV>,
    limit: int,
)
    requires
        eg.wf(),
        forall|j: int| 0 <= j < mappings.len() ==> wm_in_range(eg, #[trigger] mappings[j]),
        forall|j: int| 0 <= j < mappings.len() ==> covers_conditions(#[trigger] mappings[j], cs),
        conditions_fail_throughout(eg, cs, mappings, limit),
    ensures
        ({
            let (eg2, out) = spec_apply(eg, rhs, cs, eclass, mappings, limit);
            &&& out == Seq::<int>::empty()
            &&& eg.n() <= eg2.n()
            &&& forall|a: int, b: int|
                0 <= a < eg.n() && 0 <= b < eg.n() ==> (#[trigger] eg2.same(a, b) <==> eg.same(
                    a,
                    b,
                ))
        }),
    decreases mappings.len(),
{
    if mappings.len() > 0 && !(eg.n() > limit) {
        lemma_spec_check_all_props(eg, cs, mappings[0]);
        let (eg1, ok) = spec_check_all(eg, cs, mappings[0]);
        assert(!ok);
        assert forall|j: int| 0 <= j < mappings.drop_first().len() implies wm_in_range(
            eg1,
            #[trigger] mappings.drop_first()[j],
        ) && covers_conditions(#[trigger] mappings.drop_first()[j], cs) by {
            assert(mappings.drop_first()[j] == mappings[j + 1]);
            assert(wm_in_range(eg, mappings[j + 1]));
            assert forall|q: int| 0 <= q < mappings[j + 1].len() implies 0 <= (
            #[trigger] mappings[j + 1][q]).1 < eg1.n() by {
                assert(0 <= mappings[j + 1][q].1 < eg.n());
            }
        }
        lemma_condition_invariance(eg1, rhs, cs, eclass, mappings.drop_first(), limit);
        let (eg2, out) = spec_apply(eg1, rhs, cs, eclass, mappings.drop_first(), limit);
        assert forall|a: int, b: int| 0 <= a < eg.n() && 0 <= b < eg.n() implies (
        #[trigger] eg2.same(a, b) <==> eg.same(a, b)) by {
            assert(eg1.canon(a) == eg.canon(a));
            assert(eg1.canon(b) == eg.canon(b));
            assert(eg2.same(a, b) <==> eg1.same(a, b));
        }
    }
}

} // verus!
