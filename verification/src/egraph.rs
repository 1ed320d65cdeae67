//! A minimal e-graph: a union-find over e-classes of hash-consed e-nodes.
//!
//! This is the collaborator surface the pattern engine consumes: `add`
//! interns an e-node (canonicalizing its children), `union` merges two
//! e-classes, `find` canonicalizes an id, `class_nodes` enumerates the
//! e-nodes of one class, and `rebuild` restores congruence after unions.
//! Every operation is specified exactly against the mathematical model
//! [`EGraphV`].

use vstd::prelude::*;

verus! {

use crate::Id;
use crate::expr::{ENode, ENodeV, ids_view};

/// What `add` reports: the e-class of the node, and whether the node was
/// already interned.
#[derive(Clone, Copy, Debug, PartialEq, Eq, Structural)]
pub struct AddResult {
    pub was_there: bool,
    pub id: Id,
}

/// The mathematical value of an [`EGraph`]: one leader per id, and the
/// e-node that created each id (children canonical at insertion time).
pub struct EGraphV {
    pub leaders: Seq<int>,
    pub nodes: Seq<ENodeV>,
}

impl EGraphV {
    /// The number of ids ever created.
    pub open spec fn n(self) -> int {
        self.leaders.len() as int
    }

    /// The canonical id of `c`'s e-class.
    pub open spec fn canon(self, c: int) -> int {
        self.leaders[c]
    }

    /// Two ids name the same e-class.
    pub open spec fn same(self, a: int, b: int) -> bool {
        self.canon(a) == self.canon(b)
    }

    /// All children of `e` are existing ids.
    pub open spec fn node_in_range(self, e: ENodeV) -> bool {
        forall|i: int| 0 <= i < e.children.len() ==> 0 <= #[trigger] e.children[i] < self.n()
    }

    /// Well-formedness: one node per id, leaders in range and idempotent,
    /// children of stored nodes in range.
    pub open spec fn wf(self) -> bool {
        &&& self.nodes.len() == self.leaders.len()
        &&& forall|k: int|
            0 <= k < self.n() ==> 0 <= #[trigger] self.leaders[k] < self.n()
                && self.leaders[self.leaders[k]] == self.leaders[k]
        &&& forall|k: int| 0 <= k < self.n() ==> self.node_in_range(#[trigger] self.nodes[k])
    }

    /// `e` with its children replaced by their canonical ids.
    pub open spec fn canon_node(self, e: ENodeV) -> ENodeV {
        ENodeV { op: e.op, children: e.children.map_values(|c: int| self.canon(c)) }
    }

    /// The first stored node from index `k` on whose canonical form is `ce`.
    pub open spec fn lookup_from(self, ce: ENodeV, k: int) -> Option<int>
        decreases self.nodes.len() - k,
        when 0 <= k <= self.nodes.len()
    {
        if k >= self.nodes.len() {
            None
        } else if self.canon_node(self.nodes[k]) == ce {
            Some(k)
        } else {
            self.lookup_from(ce, k + 1)
        }
    }

    /// The id under which the canonical node `ce` is interned, if any.
    pub open spec fn lookup(self, ce: ENodeV) -> Option<int> {
        self.lookup_from(ce, 0)
    }

    /// The effect of interning `e`: the new e-graph, the e-class of `e`,
    /// and whether `e` was already interned.
    pub open spec fn spec_add(self, e: ENodeV) -> (EGraphV, int, bool) {
        let ce = self.canon_node(e);
        match self.lookup(ce) {
            Some(k) => (self, self.canon(k), true),
            None => (
                EGraphV { leaders: self.leaders.push(self.n()), nodes: self.nodes.push(ce) },
                self.n(),
                false,
            ),
        }
    }

    /// The effect of merging the e-classes of `a` and `b`: every id led by
    /// `b`'s leader is re-led by `a`'s leader, which is returned.
    pub open spec fn spec_union(self, a: int, b: int) -> (EGraphV, int) {
        let la = self.canon(a);
        let lb = self.canon(b);
        (
            EGraphV {
                leaders: Seq::new(
                    self.leaders.len(),
                    |k: int| if self.leaders[k] == lb {
                        la
                    } else {
                        self.leaders[k]
                    },
                ),
                nodes: self.nodes,
            },
            la,
        )
    }

    /// The canonical nodes of class `c` among the first `k` stored nodes,
    /// in insertion order.
    pub open spec fn class_nodes_upto(self, c: int, k: int) -> Seq<ENodeV>
        decreases k,
        when k >= 0
    {
        if k <= 0 {
            Seq::empty()
        } else {
            let rest = self.class_nodes_upto(c, k - 1);
            if self.leaders[k - 1] == c {
                rest.push(self.canon_node(self.nodes[k - 1]))
            } else {
                rest
            }
        }
    }

    /// The canonical nodes of class `c`, in insertion order.
    pub open spec fn class_nodes(self, c: int) -> Seq<ENodeV> {
        self.class_nodes_upto(c, self.n())
    }
}

/// A successful lookup returns an index into the stored nodes.
pub proof fn lemma_lookup_in_range(eg: EGraphV, ce: ENodeV, k: int)
    requires
        0 <= k <= eg.nodes.len(),
    ensures
        eg.lookup_from(ce, k) matches Some(i) ==> k <= i < eg.nodes.len() && eg.canon_node(
            eg.nodes[i],
        ) == ce,
    decreases eg.nodes.len() - k,
{
    if k < eg.nodes.len() && eg.canon_node(eg.nodes[k]) != ce {
        lemma_lookup_in_range(eg, ce, k + 1);
    }
}

/// Interning an already-present node changes nothing; a fresh node gets a
/// fresh, canonical id and leaves old classes untouched.
pub proof fn lemma_spec_add_props(eg: EGraphV, e: ENodeV)
    requires
        eg.wf(),
        eg.node_in_range(e),
    ensures
        ({
            let (eg2, id, wt) = eg.spec_add(e);
            &&& eg2.wf()
            &&& wt ==> eg2 == eg
            &&& !wt ==> eg2.n() == eg.n() + 1
            &&& !wt ==> eg2.nodes == eg.nodes.push(eg.canon_node(e))
            &&& 0 <= id < eg2.n()
            &&& eg2.canon(id) == id
            &&& forall|a: int| 0 <= a < eg.n() ==> eg2.canon(a) == eg.canon(a)
        }),
{
    let ce = eg.canon_node(e);
    lemma_lookup_in_range(eg, ce, 0);
    let (eg2, id, wt) = eg.spec_add(e);
    if !wt {
        let n = eg.leaders.len() as int;
        assert(eg2.leaders[n] == n);
        assert forall|k: int| 0 <= k < eg2.n() implies 0 <= #[trigger] eg2.leaders[k] < eg2.n()
            && eg2.leaders[eg2.leaders[k]] == eg2.leaders[k] by {
            if k < n {
                assert(eg2.leaders[k] == eg.leaders[k]);
            }
        }
        assert forall|k: int| 0 <= k < eg2.n() implies eg2.node_in_range(
            #[trigger] eg2.nodes[k],
        ) by {
            if k < n {
                assert(eg2.nodes[k] == eg.nodes[k]);
                assert(eg.node_in_range(eg.nodes[k]));
            } else {
                assert(eg2.nodes[k] == ce);
                assert forall|i: int| 0 <= i < ce.children.len() implies 0
                    <= #[trigger] ce.children[i] < eg2.n() by {
                    assert(ce.children[i] == eg.canon(e.children[i]));
                }
            }
        }
    } else {
        let k = eg.lookup(ce)->Some_0;
        assert(0 <= eg.canon(k) < eg.n());
    }
}

/// Merging coarsens and never splits: afterwards two old ids are equal
/// exactly when they already were, or were separated only by `a` and `b`.
pub proof fn lemma_spec_union_props(eg: EGraphV, a: int, b: int)
    requires
        eg.wf(),
        0 <= a < eg.n(),
        0 <= b < eg.n(),
    ensures
        ({
            let (eg2, r) = eg.spec_union(a, b);
            &&& eg2.wf()
            &&& eg2.n() == eg.n()
            &&& eg2.nodes == eg.nodes
            &&& r == eg.canon(a)
            &&& eg2.same(a, b)
            &&& forall|i: int, j: int|
                0 <= i < eg.n() && 0 <= j < eg.n() ==> (#[trigger] eg2.same(i, j) <==> (eg.same(
                    i,
                    j,
                ) || (eg.same(i, a) && eg.same(j, b)) || (eg.same(i, b) && eg.same(j, a))))
        }),
{
    let (eg2, r) = eg.spec_union(a, b);
    let la = eg.canon(a);
    let lb = eg.canon(b);
    assert(eg.leaders[la] == la);
    assert(eg.leaders[lb] == lb);
    assert forall|k: int| 0 <= k < eg2.n() implies 0 <= #[trigger] eg2.leaders[k] < eg2.n()
        && eg2.leaders[eg2.leaders[k]] == eg2.leaders[k] by {
        assert(0 <= eg.leaders[k] < eg.n());
        assert(eg.leaders[eg.leaders[k]] == eg.leaders[k]);
    }
}

/// `rel` is an equivalence on the ids of `eg0` that contains `eg0`'s own
/// equalities and is closed under congruence of the stored e-nodes: ids of
/// nodes with one operator and `rel`-equal children are `rel`-equal.  The
/// congruence closure of `eg0` is the least such relation.
pub open spec fn congruence_invariant(eg0: EGraphV, rel: spec_fn(int, int) -> bool) -> bool {
    &&& forall|a: int| 0 <= a < eg0.n() ==> #[trigger] rel(a, a)
    &&& forall|a: int, b: int| 0 <= a < eg0.n() && 0 <= b < eg0.n() && #[trigger] rel(a, b) ==> rel(
        b,
        a,
    )
    &&& forall|a: int, b: int, c: int|
        0 <= a < eg0.n() && 0 <= b < eg0.n() && 0 <= c < eg0.n() && #[trigger] rel(a, b)
            && #[trigger] rel(b, c) ==> rel(a, c)
    &&& forall|a: int, b: int|
        0 <= a < eg0.n() && 0 <= b < eg0.n() && #[trigger] eg0.same(a, b) ==> rel(a, b)
    &&& forall|k: int, l: int|
        0 <= k < eg0.n() && 0 <= l < eg0.n() && (#[trigger] eg0.nodes[k]).op == (
        #[trigger] eg0.nodes[l]).op && eg0.nodes[k].children.len() == eg0.nodes[l].children.len()
            && (forall|i: int|
            0 <= i < eg0.nodes[k].children.len() ==> rel(
                #[trigger] eg0.nodes[k].children[i],
                eg0.nodes[l].children[i],
            )) ==> rel(k, l)
}

/// An e-graph: a growable union-find (`leaders`) paired with the list of
/// interned e-nodes, one per id.
pub struct EGraph {
    leaders: Vec<Id>,
    nodes: Vec<ENode>,
}

/// The views of a sequence of e-nodes.
pub open spec fn enodes_view(s: Seq<ENode>) -> Seq<ENodeV> {
    s.map_values(|e: ENode| e@)
}

impl View for EGraph {
    type V = EGraphV;

    closed spec fn view(&self) -> EGraphV {
        EGraphV { leaders: ids_view(self.leaders@), nodes: enodes_view(self.nodes@) }
    }
}

impl Default for EGraph {
    /// The empty e-graph.
    fn default() -> (r: Self)
        ensures
            r@.wf(),
            r@.n() == 0,
    {
        let r = EGraph { leaders: Vec::new(), nodes: Vec::new() };
        proof {
            assert(r@.leaders =~= Seq::<int>::empty());
            assert(r@.nodes =~= Seq::<ENodeV>::empty());
        }
        r
    }
}

impl EGraph {
    /// How big the e-graph is: the number of ids ever created.  Used by the
    /// rewrite driver as the measure for its soft size limit.
    pub fn total_size(&self) -> (r: usize)
        ensures
            r == self@.n(),
    {
        self.leaders.len()
    }

    /// The canonical id of `id`'s e-class.
    pub fn find(&self, id: Id) -> (r: Id)
        requires
            (id as int) < self@.n(),
        ensures
            r == self@.canon(id as int),
    {
        proof {
            assert(self@.leaders[id as int] == self.leaders@[id as int] as int);
        }
        self.leaders[id]
    }

    /// Whether the canonical forms of the stored children `stored` agree
    /// with the already-canonical children `cc`.
    fn children_match(&self, stored: &Vec<Id>, cc: &Vec<Id>) -> (r: bool)
        requires
            self@.wf(),
            forall|i: int| 0 <= i < stored@.len() ==> (#[trigger] stored@[i] as int) < self@.n(),
        ensures
            r == (ids_view(stored@).map_values(|c: int| self@.canon(c)) == ids_view(cc@)),
    {
        let ghost mapped = ids_view(stored@).map_values(|c: int| self@.canon(c));
        proof {
            assert(mapped.len() == stored@.len());
            assert(ids_view(cc@).len() == cc@.len());
        }
        if stored.len() != cc.len() {
            return false;
        }
        let mut i: usize = 0;
        while i < stored.len()
            invariant
                i <= stored.len(),
                stored@.len() == cc@.len(),
                mapped == ids_view(stored@).map_values(|c: int| self@.canon(c)),
                mapped.len() == stored@.len(),
                self@.wf(),
                forall|j: int|
                    0 <= j < stored@.len() ==> (#[trigger] stored@[j] as int) < self@.n(),
                forall|j: int| 0 <= j < i ==> mapped[j] == ids_view(cc@)[j],
            decreases stored.len() - i,
        {
            proof {
                assert(mapped[i as int] == self@.canon(stored@[i as int] as int));
                assert(self@.canon(stored@[i as int] as int) == self.leaders@[stored@[i as int] as int] as int);
                assert(ids_view(cc@)[i as int] == cc@[i as int] as int);
            }
            if self.leaders[stored[i]] != cc[i] {
                return false;
            }
            i += 1;
        }
        proof {
            assert(mapped =~= ids_view(cc@));
        }
        true
    }

    /// Intern an e-node, canonicalizing its children first.  Returns the
    /// e-class of the node and whether it was already present; an add of a
    /// present node leaves the e-graph unchanged.
    pub fn add(&mut self, enode: ENode) -> (r: AddResult)
        requires
            old(self)@.wf(),
            old(self)@.node_in_range(enode@),
        ensures
            ({
                let (eg2, id, wt) = old(self)@.spec_add(enode@);
                final(self)@ == eg2 && r.id as int == id && r.was_there == wt
            }),
    {
        let ghost eg = self@;
        let ghost ce = eg.canon_node(enode@);
        // canonicalize the children
        let mut cc: Vec<Id> = Vec::new();
        let mut i: usize = 0;
        while i < enode.children.len()
            invariant
                i <= enode.children.len(),
                self@ == eg,
                eg.wf(),
                eg.node_in_range(enode@),
                cc@.len() == i as int,
                forall|j: int| 0 <= j < i ==> cc@[j] as int == eg.canon(enode.children@[j] as int),
            decreases enode.children.len() - i,
        {
            proof {
                assert(enode@.children[i as int] == enode.children@[i as int] as int);
                assert(0 <= enode@.children[i as int] < eg.n());
                assert(eg.n() == self.leaders@.len());
            }
            let c = enode.children[i];
            let l = self.leaders[c];
            proof {
                assert(l as int == eg.canon(c as int));
            }
            cc.push(l);
            i += 1;
        }
        proof {
            assert forall|j: int| 0 <= j < cc@.len() implies ids_view(cc@)[j] == ce.children[j] by {
                assert(ce.children[j] == eg.canon(enode@.children[j]));
                assert(enode@.children[j] == enode.children@[j] as int);
            }
            assert(ids_view(cc@) =~= ce.children);
            assert(forall|j: int| 0 <= j < cc@.len() ==> 0 <= #[trigger] ce.children[j] < eg.n());
        }
        // linear search for an interned node with the same canonical form
        let mut k: usize = 0;
        while k < self.nodes.len()
            invariant
                k <= self.nodes.len(),
                self@ == eg,
                eg.wf(),
                eg.nodes.len() == self.nodes@.len(),
                ids_view(cc@) == ce.children,
                ce.op == enode.op@,
                ce == eg.canon_node(enode@),
                forall|j: int| 0 <= j < k ==> eg.canon_node(eg.nodes[j]) != ce,
            decreases self.nodes.len() - k,
        {
            proof {
                assert(eg.nodes[k as int] == self.nodes@[k as int]@);
                assert(eg.node_in_range(eg.nodes[k as int]));
            }
            let node_op_eq = self.nodes[k].op == enode.op;
            if node_op_eq {
                let nk_children = &self.nodes[k].children;
                proof {
                    assert(ids_view(nk_children@) == eg.nodes[k as int].children);
                    assert forall|j: int| 0 <= j < nk_children@.len() implies (
                    #[trigger] nk_children@[j] as int) < eg.n() by {
                        assert(eg.nodes[k as int].children[j] == nk_children@[j] as int);
                        assert(0 <= eg.nodes[k as int].children[j] < eg.n());
                    }
                }
                let matched = self.children_match(nk_children, &cc);
                if matched {
                    proof {
                        assert(eg.canon_node(eg.nodes[k as int]).children == ids_view(cc@));
                        assert(eg.canon_node(eg.nodes[k as int]) == ce);
                        lemma_lookup_stops(eg, ce, k as int);
                        assert(eg.lookup(ce) == Some(k as int));
                        assert(eg.n() == self.leaders@.len());
                    }
                    let leader = self.leaders[k];
                    proof {
                        assert(leader as int == eg.canon(k as int));
                    }
                    return AddResult { was_there: true, id: leader };
                }
                proof {
                    assert(eg.canon_node(eg.nodes[k as int]).children != ce.children);
                }
            } else {
                proof {
                    assert(eg.canon_node(eg.nodes[k as int]).op == eg.nodes[k as int].op);
                    assert(eg.nodes[k as int].op == self.nodes@[k as int].op@);
                }
            }
            k += 1;
        }
        proof {
            lemma_lookup_stops(eg, ce, eg.nodes.len() as int);
            assert(eg.lookup(ce) is None);
        }
        let new_id = self.leaders.len();
        self.leaders.push(new_id);
        self.nodes.push(ENode { op: enode.op, children: cc });
        proof {
            let (eg2, id, wt) = eg.spec_add(enode@);
            assert(self@.leaders =~= eg2.leaders);
            assert(self@.nodes =~= eg2.nodes);
            assert(self@ == eg2);
        }
        AddResult { was_there: false, id: new_id }
    }

    /// Merge the e-classes of `a` and `b`; the leader of `a`'s class leads
    /// the merged class and is returned.
    pub fn union(&mut self, a: Id, b: Id) -> (r: Id)
        requires
            old(self)@.wf(),
            (a as int) < old(self)@.n(),
            (b as int) < old(self)@.n(),
        ensures
            ({
                let (eg2, leader) = old(self)@.spec_union(a as int, b as int);
                final(self)@ == eg2 && r as int == leader
            }),
    {
        let ghost eg = self@;
        let la = self.leaders[a];
        let lb = self.leaders[b];
        proof {
            assert(la as int == eg.canon(a as int));
            assert(lb as int == eg.canon(b as int));
        }
        let mut k: usize = 0;
        while k < self.leaders.len()
            invariant
                k <= self.leaders.len(),
                self.leaders@.len() == eg.leaders.len(),
                enodes_view(self.nodes@) == eg.nodes,
                la as int == eg.canon(a as int),
                lb as int == eg.canon(b as int),
                forall|j: int|
                    0 <= j < k ==> self.leaders@[j] as int == (if eg.leaders[j] == lb as int {
                        la as int
                    } else {
                        eg.leaders[j]
                    }),
                forall|j: int|
                    k <= j < eg.leaders.len() ==> self.leaders@[j] as int == eg.leaders[j],
            decreases self.leaders.len() - k,
        {
            if self.leaders[k] == lb {
                self.leaders.set(k, la);
            }
            k += 1;
        }
        proof {
            let (eg2, leader) = eg.spec_union(a as int, b as int);
            assert(self@.leaders =~= eg2.leaders);
            assert(self@ == eg2);
        }
        la
    }

    /// The e-nodes of class `c`, children canonicalized, in insertion order.
    pub fn class_nodes(&self, c: Id) -> (r: Vec<ENode>)
        requires
            self@.wf(),
            (c as int) < self@.n(),
        ensures
            enodes_view(r@) == self@.class_nodes(c as int),
    {
        let ghost eg = self@;
        let mut r: Vec<ENode> = Vec::new();
        proof {
            assert(enodes_view(r@) =~= eg.class_nodes_upto(c as int, 0));
        }
        let mut k: usize = 0;
        while k < self.nodes.len()
            invariant
                k <= self.nodes.len(),
                self@ == eg,
                eg.wf(),
                (c as int) < eg.n(),
                eg.nodes.len() == self.nodes@.len(),
                eg.n() == self.leaders@.len(),
                enodes_view(r@) == eg.class_nodes_upto(c as int, k as int),
            decreases self.nodes.len() - k,
        {
            proof {
                assert(eg.leaders[k as int] == self.leaders@[k as int] as int);
                assert(eg.nodes[k as int] == self.nodes@[k as int]@);
            }
            if self.leaders[k] == c {
                let node = &self.nodes[k];
                proof {
                    assert(eg.node_in_range(eg.nodes[k as int]));
                }
                let mut cc: Vec<Id> = Vec::new();
                let mut i: usize = 0;
                while i < node.children.len()
                    invariant
                        i <= node.children.len(),
                        self@ == eg,
                        eg.wf(),
                        eg.n() == self.leaders@.len(),
                        ids_view(node.children@) == eg.nodes[k as int].children,
                        eg.node_in_range(eg.nodes[k as int]),
                        cc@.len() == i as int,
                        forall|j: int|
                            0 <= j < i ==> cc@[j] as int == eg.canon(node.children@[j] as int),
                    decreases node.children.len() - i,
                {
                    proof {
                        assert(eg.nodes[k as int].children[i as int] == node.children@[i as int] as int);
                        assert(0 <= eg.nodes[k as int].children[i as int] < eg.n());
                    }
                    let ch = node.children[i];
                    cc.push(self.leaders[ch]);
                    i += 1;
                }
                let canon_node = ENode { op: node.op.clone(), children: cc };
                proof {
                    let cn = eg.canon_node(eg.nodes[k as int]);
                    assert forall|j: int| 0 <= j < canon_node@.children.len() implies canon_node@.children[j]
                        == cn.children[j] by {
                        assert(canon_node@.children[j] == canon_node.children@[j] as int);
                        assert(cn.children[j] == eg.canon(eg.nodes[k as int].children[j]));
                        assert(eg.nodes[k as int].children[j] == node.children@[j] as int);
                    }
                    assert(canon_node@.children =~= cn.children);
                    assert(canon_node@ == cn);
                }
                let ghost r_pre = r@;
                r.push(canon_node);
                proof {
                    assert(enodes_view(r@) =~= enodes_view(r_pre).push(canon_node@));
                }
            }
            k += 1;
        }
        r
    }

    /// Whether the canonical forms of two child lists agree.
    fn canon_children_eq(&self, x: &Vec<Id>, y: &Vec<Id>) -> (r: bool)
        requires
            self@.wf(),
            forall|i: int| 0 <= i < x@.len() ==> (#[trigger] x@[i] as int) < self@.n(),
            forall|i: int| 0 <= i < y@.len() ==> (#[trigger] y@[i] as int) < self@.n(),
        ensures
            r == (ids_view(x@).map_values(|c: int| self@.canon(c)) == ids_view(y@).map_values(
                |c: int| self@.canon(c),
            )),
    {
        let ghost mx = ids_view(x@).map_values(|c: int| self@.canon(c));
        let ghost my = ids_view(y@).map_values(|c: int| self@.canon(c));
        proof {
            assert(mx.len() == x@.len());
            assert(my.len() == y@.len());
        }
        if x.len() != y.len() {
            return false;
        }
        let mut i: usize = 0;
        while i < x.len()
            invariant
                i <= x.len(),
                x@.len() == y@.len(),
                self@.wf(),
                self@.n() == self.leaders@.len(),
                mx == ids_view(x@).map_values(|c: int| self@.canon(c)),
                my == ids_view(y@).map_values(|c: int| self@.canon(c)),
                mx.len() == x@.len(),
                my.len() == y@.len(),
                forall|j: int| 0 <= j < x@.len() ==> (#[trigger] x@[j] as int) < self@.n(),
                forall|j: int| 0 <= j < y@.len() ==> (#[trigger] y@[j] as int) < self@.n(),
                forall|j: int| 0 <= j < i ==> mx[j] == my[j],
            decreases x.len() - i,
        {
            proof {
                assert(mx[i as int] == self@.canon(x@[i as int] as int));
                assert(my[i as int] == self@.canon(y@[i as int] as int));
                assert(self@.canon(x@[i as int] as int) == self.leaders@[x@[i as int] as int] as int);
                assert(self@.canon(y@[i as int] as int) == self.leaders@[y@[i as int] as int] as int);
            }
            if self.leaders[x[i]] != self.leaders[y[i]] {
                return false;
            }
            i += 1;
        }
        proof {
            assert(mx =~= my);
        }
        true
    }

    /// Restore congruence: repeatedly union classes that hold e-nodes with
    /// the same operator and the same canonical children, until a fixed
    /// point (or a round per id, which always suffices).  Never splits a
    /// class.
    pub fn rebuild(&mut self)
        requires
            old(self)@.wf(),
        ensures
            final(self)@.wf(),
            final(self)@.n() == old(self)@.n(),
            final(self)@.nodes == old(self)@.nodes,
            forall|i: int, j: int|
                0 <= i < old(self)@.n() && 0 <= j < old(self)@.n() && old(self)@.same(i, j)
                    ==> final(self)@.same(i, j),
            forall|rel: spec_fn(int, int) -> bool, i: int, j: int|
                #![trigger congruence_invariant(old(self)@, rel), final(self)@.same(i, j)]
                congruence_invariant(old(self)@, rel) && 0 <= i < old(self)@.n() && 0 <= j < old(
                    self,
                )@.n() && final(self)@.same(i, j) ==> rel(i, j),
    {
        let n = self.leaders.len();
        let mut round: usize = 0;
        let mut changed = true;
        while changed && round < n
            invariant
                self@.wf(),
                self@.n() == old(self)@.n(),
                self@.nodes == old(self)@.nodes,
                n as int == old(self)@.n(),
                forall|i: int, j: int|
                    0 <= i < old(self)@.n() && 0 <= j < old(self)@.n() && old(self)@.same(i, j)
                        ==> self@.same(i, j),
                forall|rel: spec_fn(int, int) -> bool, i: int, j: int|
                    #![trigger congruence_invariant(old(self)@, rel), self@.same(i, j)]
                    congruence_invariant(old(self)@, rel) && 0 <= i < old(self)@.n() && 0 <= j
                        < old(self)@.n() && self@.same(i, j) ==> rel(i, j),
            decreases n - round,
        {
            changed = false;
            let mut k: usize = 0;
            while k < n
                invariant
                    k <= n,
                    self@.wf(),
                    self@.n() == old(self)@.n(),
                    self@.nodes == old(self)@.nodes,
                    n as int == old(self)@.n(),
                    forall|i: int, j: int|
                        0 <= i < old(self)@.n() && 0 <= j < old(self)@.n() && old(self)@.same(i, j)
                            ==> self@.same(i, j),
                    forall|rel: spec_fn(int, int) -> bool, i: int, j: int|
                    #![trigger congruence_invariant(old(self)@, rel), self@.same(i, j)]
                    congruence_invariant(old(self)@, rel) && 0 <= i < old(self)@.n() && 0 <= j
                        < old(self)@.n() && self@.same(i, j) ==> rel(i, j),
                decreases n - k,
            {
                let mut l: usize = k + 1;
                while l < n
                    invariant
                        k < l || l == k + 1,
                        k < n,
                        l >= k,
                        self@.wf(),
                        self@.n() == old(self)@.n(),
                        self@.nodes == old(self)@.nodes,
                        n as int == old(self)@.n(),
                        forall|i: int, j: int|
                            0 <= i < old(self)@.n() && 0 <= j < old(self)@.n() && old(self)@.same(
                                i,
                                j,
                            ) ==> self@.same(i, j),
                        forall|rel: spec_fn(int, int) -> bool, i: int, j: int|
                    #![trigger congruence_invariant(old(self)@, rel), self@.same(i, j)]
                    congruence_invariant(old(self)@, rel) && 0 <= i < old(self)@.n() && 0 <= j
                        < old(self)@.n() && self@.same(i, j) ==> rel(i, j),
                    decreases n - l,
                {
                    let ghost eg = self@;
                    proof {
                        assert(eg.nodes[k as int] == self.nodes@[k as int]@);
                        assert(eg.nodes[l as int] == self.nodes@[l as int]@);
                        assert(eg.node_in_range(eg.nodes[k as int]));
                        assert(eg.node_in_range(eg.nodes[l as int]));
                        assert forall|i: int| 0 <= i < self.nodes@[k as int].children@.len() implies (
                        #[trigger] self.nodes@[k as int].children@[i] as int) < eg.n() by {
                            assert(eg.nodes[k as int].children[i] == self.nodes@[k as int].children@[i] as int);
                        }
                        assert forall|i: int| 0 <= i < self.nodes@[l as int].children@.len() implies (
                        #[trigger] self.nodes@[l as int].children@[i] as int) < eg.n() by {
                            assert(eg.nodes[l as int].children[i] == self.nodes@[l as int].children@[i] as int);
                        }
                    }
                    let congruent = self.nodes[k].op == self.nodes[l].op
                        && self.canon_children_eq(&self.nodes[k].children, &self.nodes[l].children);
                    let distinct = self.leaders[k] != self.leaders[l];
                    if congruent && distinct {
                        proof {
                            lemma_spec_union_props(self@, k as int, l as int);
                        }
                        self.union(k, l);
                        changed = true;
                        proof {
                            let mck = ids_view(self.nodes@[k as int].children@).map_values(
                                |c: int| eg.canon(c),
                            );
                            let mcl = ids_view(self.nodes@[l as int].children@).map_values(
                                |c: int| eg.canon(c),
                            );
                            assert(mck == mcl);
                            assert(eg.nodes[k as int].children.len() == eg.nodes[l as int].children.len());
                            assert forall|i: int|
                                0 <= i < eg.nodes[k as int].children.len() implies eg.same(
                                eg.nodes[k as int].children[i],
                                eg.nodes[l as int].children[i],
                            ) by {
                                assert(mck[i] == eg.canon(
                                    ids_view(self.nodes@[k as int].children@)[i],
                                ));
                                assert(mcl[i] == eg.canon(
                                    ids_view(self.nodes@[l as int].children@)[i],
                                ));
                                assert(ids_view(self.nodes@[k as int].children@)[i]
                                    == eg.nodes[k as int].children[i]);
                                assert(ids_view(self.nodes@[l as int].children@)[i]
                                    == eg.nodes[l as int].children[i]);
                            }
                            assert(eg.nodes[k as int].op == eg.nodes[l as int].op);
                            assert forall|
                                rel: spec_fn(int, int) -> bool,
                                i: int,
                                j: int,
                            |
                                congruence_invariant(old(self)@, rel) && 0 <= i < old(self)@.n()
                                    && 0 <= j < old(self)@.n() && #[trigger] self@.same(i, j)
                                    && #[trigger] congruence_invariant(
                                    old(self)@,
                                    rel,
                                ) implies rel(i, j) by {
                                assert forall|i2: int|
                                    0 <= i2 < old(self)@.nodes[k as int].children.len() implies rel(
                                    #[trigger] old(self)@.nodes[k as int].children[i2],
                                    old(self)@.nodes[l as int].children[i2],
                                ) by {
                                    assert(old(self)@.nodes[k as int] == eg.nodes[k as int]);
                                    assert(old(self)@.nodes[l as int] == eg.nodes[l as int]);
                                    assert(eg.same(
                                        eg.nodes[k as int].children[i2],
                                        eg.nodes[l as int].children[i2],
                                    ));
                                    assert(0 <= eg.nodes[k as int].children[i2] < eg.n());
                                    assert(0 <= eg.nodes[l as int].children[i2] < eg.n());
                                }
                                assert(old(self)@.nodes[k as int].op == old(self)@.nodes[l as int].op);
                                assert(rel(k as int, l as int));
                                assert(eg.same(i, j) || (eg.same(i, k as int) && eg.same(
                                    j,
                                    l as int,
                                )) || (eg.same(i, l as int) && eg.same(j, k as int)));
                                if eg.same(i, j) {
                                    assert(rel(i, j));
                                } else if eg.same(i, k as int) && eg.same(j, l as int) {
                                    assert(rel(i, k as int));
                                    assert(rel(j, l as int));
                                    assert(rel(l as int, j));
                                    assert(rel(i, l as int));
                                    assert(rel(i, j));
                                } else {
                                    assert(rel(i, l as int));
                                    assert(rel(j, k as int));
                                    assert(rel(l as int, k as int));
                                    assert(rel(i, k as int));
                                    assert(rel(k as int, j));
                                    assert(rel(i, j));
                                }
                            }
                        }
                    }
                    l += 1;
                }
                k += 1;
            }
            round += 1;
        }
    }
}

/// Every listed node of a class is the canonical form of a stored node of
/// that class.
pub proof fn lemma_class_nodes_witness(eg: EGraphV, c: int, k: int)
    requires
        0 <= k <= eg.nodes.len(),
        eg.nodes.len() == eg.leaders.len(),
    ensures
        forall|t: int|
            0 <= t < eg.class_nodes_upto(c, k).len() ==> exists|j: int|
                0 <= j < k && eg.leaders[j] == c && #[trigger] eg.class_nodes_upto(c, k)[t]
                    == eg.canon_node(eg.nodes[j]),
    decreases k,
{
    if k > 0 {
        lemma_class_nodes_witness(eg, c, k - 1);
        let rest = eg.class_nodes_upto(c, k - 1);
        assert forall|t: int| 0 <= t < eg.class_nodes_upto(c, k).len() implies exists|j: int|
            0 <= j < k && eg.leaders[j] == c && #[trigger] eg.class_nodes_upto(c, k)[t]
                == eg.canon_node(eg.nodes[j]) by {
            if eg.leaders[k - 1] == c && t == rest.len() {
                assert(eg.class_nodes_upto(c, k)[t] == eg.canon_node(eg.nodes[k - 1]));
            } else {
                assert(eg.class_nodes_upto(c, k)[t] == rest[t]);
                let j = choose|j: int|
                    0 <= j < k - 1 && eg.leaders[j] == c && #[trigger] rest[t] == eg.canon_node(
                        eg.nodes[j],
                    );
                assert(eg.class_nodes_upto(c, k)[t] == eg.canon_node(eg.nodes[j]));
            }
        }
    }
}

/// Conversely, every stored node of a class is listed for that class.
pub proof fn lemma_class_nodes_position(eg: EGraphV, c: int, k: int, j: int)
    requires
        eg.nodes.len() == eg.leaders.len(),
        0 <= k < j <= eg.nodes.len(),
        eg.leaders[k] == c,
    ensures
        exists|t: int|
            0 <= t < eg.class_nodes_upto(c, j).len() && #[trigger] eg.class_nodes_upto(c, j)[t]
                == eg.canon_node(eg.nodes[k]),
    decreases j,
{
    let rest = eg.class_nodes_upto(c, j - 1);
    if j == k + 1 {
        assert(eg.class_nodes_upto(c, j)[rest.len() as int] == eg.canon_node(eg.nodes[k]));
    } else {
        lemma_class_nodes_position(eg, c, k, j - 1);
        let t = choose|t: int|
            0 <= t < rest.len() && #[trigger] rest[t] == eg.canon_node(eg.nodes[k]);
        assert(eg.class_nodes_upto(c, j)[t] == eg.canon_node(eg.nodes[k]));
    }
}

/// If no stored node before `k` has canonical form `ce`, the lookup is
/// decided from `k` on; in particular a first match at `k` wins.
pub proof fn lemma_lookup_stops(eg: EGraphV, ce: ENodeV, k: int)
    requires
        0 <= k <= eg.nodes.len(),
        forall|j: int| 0 <= j < k ==> eg.canon_node(eg.nodes[j]) != ce,
    ensures
        eg.lookup(ce) == eg.lookup_from(ce, k),
{
    lemma_lookup_suffix(eg, ce, 0, k);
}

/// Helper: lookups from `k0` and from `k` agree when nothing matches in
/// between.
proof fn lemma_lookup_suffix(eg: EGraphV, ce: ENodeV, k0: int, k: int)
    requires
        0 <= k0 <= k <= eg.nodes.len(),
        forall|j: int| k0 <= j < k ==> eg.canon_node(eg.nodes[j]) != ce,
    ensures
        eg.lookup_from(ce, k0) == eg.lookup_from(ce, k),
    decreases k - k0,
{
    if k0 < k {
        lemma_lookup_suffix(eg, ce, k0 + 1, k);
    }
}

} // verus!
