//! The wildcard binding map: an ordered association of wildcard name to
//! e-class id, with first-wins insertion that reports any prior value.

use vstd::prelude::*;

verus! {

use crate::Id;
use crate::expr::QuestionMarkName;

/// The mathematical value of a [`WildMap`]: the bindings in insertion order.
pub type WildMapV = Seq<(Seq<char>, int)>;

/// The id bound to `w` in `m`: the value of the first entry whose name is `w`.
pub open spec fn wm_get(m: WildMapV, w: Seq<char>) -> Option<int>
    decreases m.len(),
{
    if m.len() == 0 {
        None
    } else if m[0].0 == w {
        Some(m[0].1)
    } else {
        wm_get(m.drop_first(), w)
    }
}

/// Whether `w` is bound in `m`.
pub open spec fn wm_has(m: WildMapV, w: Seq<char>) -> bool {
    wm_get(m, w) is Some
}

/// Well-formedness: no wildcard name occurs twice.
pub open spec fn wm_wf(m: WildMapV) -> bool {
    forall|i: int, j: int| 0 <= i < j < m.len() ==> m[i].0 != m[j].0
}

/// If the first `k` entries of `m` do not bind `w`, the lookup is decided
/// by the remaining entries.
pub proof fn lemma_wm_get_skip(m: WildMapV, w: Seq<char>, k: int)
    requires
        0 <= k <= m.len(),
        forall|j: int| 0 <= j < k ==> m[j].0 != w,
    ensures
        wm_get(m, w) == wm_get(m.skip(k), w),
    decreases k,
{
    if k > 0 {
        let t = m.drop_first();
        assert forall|j: int| 0 <= j < k - 1 implies t[j].0 != w by {
            assert(t[j] == m[j + 1]);
        }
        lemma_wm_get_skip(t, w, k - 1);
        assert(t.skip(k - 1) =~= m.skip(k));
        assert(m[0].0 != w);
        assert(wm_get(m, w) == wm_get(t, w));
    } else {
        assert(m.skip(0) =~= m);
    }
}

/// Looking a name up in `m.push(p)`: the old binding wins; otherwise the
/// new entry answers.
pub proof fn lemma_wm_get_push(m: WildMapV, p: (Seq<char>, int), w: Seq<char>)
    ensures
        wm_get(m.push(p), w) == if wm_get(m, w) is Some {
            wm_get(m, w)
        } else if p.0 == w {
            Some(p.1)
        } else {
            None::<int>
        },
    decreases m.len(),
{
    if m.len() == 0 {
        assert(m.push(p)[0] == p);
        assert(m.push(p).drop_first() =~= Seq::<(Seq<char>, int)>::empty());
    } else {
        assert(m.push(p)[0] == m[0]);
        assert(m.push(p).drop_first() =~= m.drop_first().push(p));
        lemma_wm_get_push(m.drop_first(), p, w);
    }
}

/// An ordered map from wildcard names to e-class ids.  Entries are kept in
/// insertion order; no name is ever bound twice (the first binding wins).
#[derive(Debug)]
pub struct WildMap {
    vec: Vec<(QuestionMarkName, Id)>,
}

impl View for WildMap {
    type V = WildMapV;

    closed spec fn view(&self) -> WildMapV {
        self.vec@.map_values(|p: (QuestionMarkName, Id)| (p.0@, p.1 as int))
    }
}

impl Default for WildMap {
    /// The empty binding map.
    fn default() -> (r: Self)
        ensures
            r@ == Seq::<(Seq<char>, int)>::empty(),
    {
        let r = WildMap { vec: Vec::new() };
        proof {
            assert(r@ =~= Seq::<(Seq<char>, int)>::empty());
        }
        r
    }
}

impl Clone for WildMap {
    fn clone(&self) -> (r: Self)
        ensures
            r@ == self@,
    {
        let mut vec: Vec<(QuestionMarkName, Id)> = Vec::new();
        let mut i: usize = 0;
        while i < self.vec.len()
            invariant
                i <= self.vec.len(),
                vec@.len() == i as int,
                forall|j: int| 0 <= j < i ==> vec@[j].0@ == self.vec@[j].0@ && vec@[j].1 == self.vec@[j].1,
            decreases self.vec.len() - i,
        {
            let p = &self.vec[i];
            vec.push((p.0.clone(), p.1));
            i += 1;
        }
        let r = WildMap { vec };
        proof {
            assert(r@ =~= self@);
        }
        r
    }
}

impl PartialEq for WildMap {
    fn eq(&self, other: &Self) -> (r: bool)
        ensures
            r == (self@ == other@),
    {
        if self.vec.len() != other.vec.len() {
            proof {
                assert(self@.len() == self.vec@.len());
                assert(other@.len() == other.vec@.len());
            }
            return false;
        }
        let mut i: usize = 0;
        while i < self.vec.len()
            invariant
                i <= self.vec.len(),
                self.vec.len() == other.vec.len(),
                forall|j: int| 0 <= j < i ==> self@[j] == other@[j],
            decreases self.vec.len() - i,
        {
            let a = &self.vec[i];
            let b = &other.vec[i];
            if !(a.0 == b.0) || a.1 != b.1 {
                proof {
                    assert(self@[i as int] != other@[i as int]);
                }
                return false;
            }
            proof {
                assert(self@[i as int] == other@[i as int]);
            }
            i += 1;
        }
        proof {
            assert(self@ =~= other@);
        }
        true
    }
}

impl vstd::std_specs::cmp::PartialEqSpecImpl for WildMap {
    open spec fn obeys_eq_spec() -> bool {
        true
    }

    open spec fn eq_spec(&self, other: &Self) -> bool {
        self@ == other@
    }
}

/// A bound name has an entry with the bound value.
pub proof fn lemma_wm_get_some_exists(m: WildMapV, w: Seq<char>)
    requires
        wm_get(m, w) is Some,
    ensures
        exists|q: int| 0 <= q < m.len() && #[trigger] m[q] == (w, wm_get(m, w)->Some_0),
    decreases m.len(),
{
    if m[0].0 == w {
        assert(m[0] == (w, wm_get(m, w)->Some_0));
    } else {
        lemma_wm_get_some_exists(m.drop_first(), w);
        let q = choose|q: int|
            0 <= q < m.drop_first().len() && #[trigger] m.drop_first()[q] == (
                w,
                wm_get(m.drop_first(), w)->Some_0,
            );
        assert(m[q + 1] == m.drop_first()[q]);
    }
}

/// In a well-formed map, looking up the name of any entry yields that
/// entry's value.
pub proof fn lemma_wm_wf_get_self(m: WildMapV, q: int)
    requires
        wm_wf(m),
        0 <= q < m.len(),
    ensures
        wm_get(m, m[q].0) == Some(m[q].1),
    decreases q,
{
    if q == 0 {
    } else {
        assert(m[0].0 != m[q].0);
        let t = m.drop_first();
        assert(t[q - 1] == m[q]);
        assert forall|i: int, j: int| 0 <= i < j < t.len() implies t[i].0 != t[j].0 by {
            assert(t[i] == m[i + 1]);
            assert(t[j] == m[j + 1]);
        }
        lemma_wm_wf_get_self(t, q - 1);
    }
}

impl WildMap {
    /// The number of bindings.
    pub fn len(&self) -> (r: usize)
        ensures
            r == self@.len(),
    {
        self.vec.len()
    }

    /// The `i`-th binding, in insertion order.
    pub fn entry(&self, i: usize) -> (r: (&QuestionMarkName, Id))
        requires
            i < self@.len(),
        ensures
            r.0@ == self@[i as int].0,
            r.1 as int == self@[i as int].1,
    {
        let p = &self.vec[i];
        (&p.0, p.1)
    }

    /// The id bound to `w`, by linear search in insertion order.
    pub fn get(&self, w: &QuestionMarkName) -> (r: Option<Id>)
        ensures
            match r {
                Some(id) => wm_get(self@, w@) == Some(id as int),
                None => wm_get(self@, w@) is None,
            },
    {
        let mut i: usize = 0;
        while i < self.vec.len()
            invariant
                i <= self.vec.len(),
                forall|j: int| 0 <= j < i ==> self@[j].0 != w@,
            decreases self.vec.len() - i,
        {
            let p = &self.vec[i];
            if p.0 == *w {
                proof {
                    lemma_wm_get_skip(self@, w@, i as int);
                    assert(self@.skip(i as int)[0] == self@[i as int]);
                }
                return Some(p.1);
            }
            i += 1;
        }
        proof {
            lemma_wm_get_skip(self@, w@, self@.len() as int);
            assert(self@.skip(self@.len() as int) =~= Seq::<(Seq<char>, int)>::empty());
        }
        None
    }

    /// First-wins insertion: if `w` is already bound, return its binding and
    /// leave the map unchanged; otherwise append `(w, id)` and return `None`.
    pub fn insert(&mut self, w: QuestionMarkName, id: Id) -> (r: Option<Id>)
        ensures
            match r {
                Some(prior) => wm_get(old(self)@, w@) == Some(prior as int),
                None => wm_get(old(self)@, w@) is None,
            },
            r is Some ==> final(self)@ == old(self)@,
            r is None ==> final(self)@ == old(self)@.push((w@, id as int)),
            wm_wf(old(self)@) ==> wm_wf(final(self)@),
    {
        let prior = self.get(&w);
        if let Some(old_id) = prior {
            return Some(old_id);
        }
        proof {
            lemma_wm_get_none_means_fresh(self@, w@);
        }
        let ghost pre = self@;
        self.vec.push((w, id));
        proof {
            assert(self@ =~= pre.push(
                (self.vec@[pre.len() as int].0@, self.vec@[pre.len() as int].1 as int),
            ));
        }
        None
    }
}

/// An unbound name differs from every entry's name.
pub proof fn lemma_wm_get_none_means_fresh(m: WildMapV, w: Seq<char>)
    requires
        wm_get(m, w) is None,
    ensures
        forall|j: int| 0 <= j < m.len() ==> m[j].0 != w,
    decreases m.len(),
{
    if m.len() > 0 {
        lemma_wm_get_none_means_fresh(m.drop_first(), w);
        assert forall|j: int| 0 <= j < m.len() implies m[j].0 != w by {
            if j > 0 {
                assert(m.drop_first()[j - 1] == m[j]);
            }
        }
    }
}

} // verus!
