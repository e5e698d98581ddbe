use vstd::prelude::*;

use crate::term::{SpecTerm, Term};

verus! {

/// The mathematical shape of a clause: a conclusion and its ordered goals.
#[verifier::ext_equal]
pub ghost struct SpecRule {
    pub head: SpecTerm,
    pub body: Seq<SpecTerm>,
}

/// A Horn clause: a head term and an ordered list of body goals. A fact is a
/// clause with an empty body.
#[derive(Debug, PartialEq)]
pub struct Rule {
    pub head: Term,
    pub body: Vec<Term>,
}

impl View for Rule {
    type V = SpecRule;

    open spec fn view(&self) -> SpecRule {
        SpecRule { head: self.head@, body: self.body.deep_view() }
    }
}

impl DeepView for Rule {
    type V = SpecRule;

    open spec fn deep_view(&self) -> SpecRule {
        self.view()
    }
}


impl SpecRule {
    /// The printed form: the head, then ` :- ` and the comma-separated goals
    /// when there are any.
    pub open spec fn text(self) -> Seq<char> {
        if self.body.len() == 0 {
            self.head.text()
        } else {
            self.head.text() + " :- "@ + SpecTerm::text_of_args(self.body, 0)
        }
    }
}

impl Rule {
    /// The printed form of the clause.
    #[verifier::loop_isolation(false)]
    pub fn to_text(&self) -> (r: String)
        ensures
            r@ == self@.text(),
    {
        let ghost body_spec = self@.body;
        let mut out = self.head.to_text();
        if self.body.len() == 0 {
            return out;
        }
        out.append(" :- ");
        let mut i: usize = 0;
        while i < self.body.len()
            invariant
                0 <= i <= self.body@.len(),
                body_spec.len() == self.body@.len(),
                forall|j: int| 0 <= j < self.body@.len() ==> body_spec[j] == self.body@[j]@,
                body_spec.len() > 0,
                i < body_spec.len() ==> out@ + SpecTerm::text_of_args(body_spec, i as int)
                    == self@.text(),
                i == body_spec.len() ==> out@ == self@.text(),
            decreases self.body@.len() - i,
        {
            let piece = self.body[i].to_text();
            out.append(piece.as_str());
            if i + 1 < self.body.len() {
                out.append(", ");
            }
            proof {
                if i + 1 < body_spec.len() {
                    assert(SpecTerm::text_of_args(body_spec, i as int) == body_spec[i as int].text()
                        + ", "@ + SpecTerm::text_of_args(body_spec, i + 1));
                } else {
                    assert(SpecTerm::text_of_args(body_spec, i as int)
                        == body_spec[i as int].text());
                }
            }
            i += 1;
        }
        out
    }
}

} // verus!
