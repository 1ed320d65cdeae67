//! Display-only S-expression emission for patterns, through the
//! `symbolic_expressions` crate: `(op child1 ... childk)` for operator
//! nodes, a bare operator for nullary nodes, the bare name for wildcards.

use vstd::prelude::*;

use symbolic_expressions::Sexp;

verus! {

use crate::pattern::{Pattern, PatternV, lemma_child_decreases, lemma_view_expr};
use vstd::string::StringExecFns;

#[verifier::external_type_specification]
#[verifier::external_body]
pub struct ExSexp(Sexp);

/// The S-expression atom holding exactly the text `s`.
pub uninterp spec fn atom_sexp(s: Seq<char>) -> Sexp;

/// The S-expression list holding exactly the elements `items`.
pub uninterp spec fn list_sexp(items: Seq<Sexp>) -> Sexp;

/// Relies on `symbolic_expressions::Sexp::String`: constructing an atom
/// from a string is a pure function of that string's characters.
#[verifier::external_body]
fn sexp_atom(s: String) -> (r: Sexp)
    ensures
        r == atom_sexp(s@),
{
    Sexp::String(s)
}

/// Relies on `symbolic_expressions::Sexp::List`: constructing a list from
/// a vector of S-expressions is a pure function of those elements.
#[verifier::external_body]
fn sexp_list(items: Vec<Sexp>) -> (r: Sexp)
    ensures
        r == list_sexp(items@),
{
    Sexp::List(items)
}

/// The S-expression denoted by a pattern.
pub open spec fn sexp_of_pattern(p: PatternV) -> Sexp
    decreases p,
{
    match p {
        PatternV::Wildcard { name } => atom_sexp(name),
        PatternV::Expr { op, children } => if children.len() == 0 {
            atom_sexp(op)
        } else {
            list_sexp(seq![atom_sexp(op)] + sexps_of_patterns(children))
        },
    }
}

/// The S-expressions denoted by a sequence of patterns.
pub open spec fn sexps_of_patterns(s: Seq<PatternV>) -> Seq<Sexp>
    decreases s,
{
    if s.len() == 0 {
        Seq::empty()
    } else {
        seq![sexp_of_pattern(s[0])] + sexps_of_patterns(s.drop_first())
    }
}

/// `sexps_of_patterns` maps pointwise.
pub proof fn lemma_sexps_of_patterns(s: Seq<PatternV>)
    ensures
        sexps_of_patterns(s).len() == s.len(),
        forall|i: int|
            0 <= i < s.len() ==> sexps_of_patterns(s)[i] == sexp_of_pattern(#[trigger] s[i]),
    decreases s.len(),
{
    if s.len() > 0 {
        lemma_sexps_of_patterns(s.drop_first());
        assert forall|i: int| 0 <= i < s.len() implies sexps_of_patterns(s)[i] == sexp_of_pattern(
            #[trigger] s[i],
        ) by {
            if i > 0 {
                assert(s.drop_first()[i - 1] == s[i]);
            }
        }
    }
}

impl Pattern {
    /// The S-expression this pattern displays as.
    #[verifier::loop_isolation(false)]
    pub fn to_sexp(&self) -> (r: Sexp)
        ensures
            r == sexp_of_pattern(self@),
        decreases *self,
    {
        match self {
            Pattern::Wildcard(w) => {
                let s = String::from_str(w.as_str());
                sexp_atom(s)
            },
            Pattern::Expr(e) => {
                proof {
                    assert(*e == self->Expr_0);
                    lemma_view_expr(*self);
                }
                let ghost chv = self@->Expr_children;
                if e.children.len() == 0 {
                    sexp_atom(e.op.clone())
                } else {
                    let mut vec: Vec<Sexp> = Vec::new();
                    vec.push(sexp_atom(e.op.clone()));
                    let mut i: usize = 0;
                    while i < e.children.len()
                        invariant
                            i <= e.children.len(),
                            vec@.len() == i + 1,
                            vec@[0] == atom_sexp(e.op@),
                            forall|j: int|
                                0 <= j < i ==> vec@[j + 1] == sexp_of_pattern(#[trigger] chv[j]),
                        decreases e.children.len() - i,
                    {
                        proof {
                            lemma_child_decreases(*self, i as int);
                            assert(chv[i as int] == e.children@[i as int]@);
                        }
                        let c = e.children[i].to_sexp();
                        vec.push(c);
                        i += 1;
                    }
                    proof {
                        lemma_sexps_of_patterns(chv);
                        let full = seq![atom_sexp(e.op@)] + sexps_of_patterns(chv);
                        assert(chv.len() == e.children@.len());
                        assert(vec@.len() == full.len());
                        assert forall|j: int| 0 <= j < vec@.len() implies vec@[j] == full[j] by {
                            if j > 0 {
                                assert(full[j] == sexps_of_patterns(chv)[j - 1]);
                                assert(sexps_of_patterns(chv)[j - 1] == sexp_of_pattern(
                                    chv[j - 1],
                                ));
                            } else {
                                assert(full[0] == atom_sexp(e.op@));
                            }
                        }
                        assert(vec@ =~= full);
                    }
                    sexp_list(vec)
                }
            },
        }
    }
}

} // verus!
