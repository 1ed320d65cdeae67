//! Names, e-nodes and ground terms.

use vstd::prelude::*;

verus! {

use crate::Id;

/// A wildcard name such as `?a`: an interned identifier with value equality.
/// Its textual form starts with the marker character `?`.
#[derive(Debug)]
pub struct QuestionMarkName {
    name: String,
}

impl View for QuestionMarkName {
    type V = Seq<char>;

    closed spec fn view(&self) -> Seq<char> {
        self.name@
    }
}

impl QuestionMarkName {
    /// The textual form of the name.
    pub fn as_str(&self) -> (r: &str)
        ensures
            r@ == self@,
    {
        self.name.as_str()
    }
}

impl Clone for QuestionMarkName {
    fn clone(&self) -> (r: Self)
        ensures
            r@ == self@,
    {
        QuestionMarkName { name: self.name.clone() }
    }
}

impl PartialEq for QuestionMarkName {
    fn eq(&self, other: &Self) -> (r: bool)
        ensures
            r == (self@ == other@),
    {
        self.name == other.name
    }
}

impl vstd::std_specs::cmp::PartialEqSpecImpl for QuestionMarkName {
    open spec fn obeys_eq_spec() -> bool {
        true
    }

    open spec fn eq_spec(&self, other: &Self) -> bool {
        self@ == other@
    }
}

impl core::str::FromStr for QuestionMarkName {
    type Err = String;

    fn from_str(s: &str) -> (r: Result<Self, String>) {
        let n = s.unicode_len();
        if n > 0 && s.get_char(0) == '?' {
            Ok(QuestionMarkName { name: s.to_string() })
        } else {
            Err("a wildcard name must start with '?'".to_string())
        }
    }
}

/// An e-node: an operator applied to an ordered sequence of e-class ids.
pub struct ENode {
    pub op: String,
    pub children: Vec<Id>,
}

/// The mathematical value of an e-node: ids are modeled as unbounded
/// integers.
pub struct ENodeV {
    pub op: Seq<char>,
    pub children: Seq<int>,
}

/// A sequence of e-class ids as unbounded integers.
pub open spec fn ids_view(s: Seq<Id>) -> Seq<int> {
    s.map_values(|c: Id| c as int)
}

impl View for ENode {
    type V = ENodeV;

    open spec fn view(&self) -> ENodeV {
        ENodeV { op: self.op@, children: ids_view(self.children@) }
    }
}

impl Clone for ENode {
    fn clone(&self) -> (r: Self)
        ensures
            r@ == self@,
    {
        ENode { op: self.op.clone(), children: self.children.clone() }
    }
}

/// A ground term: an operator tree with no wildcards.
pub struct RecExpr {
    pub op: String,
    pub children: Vec<RecExpr>,
}

} // verus!
