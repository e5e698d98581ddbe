pub mod rule;

pub use rule::{Rule, SpecRule};

use crate::term::Term;
use vstd::prelude::*;

verus! {

/// An ordered collection of clauses; iteration order is declaration order and
/// decides the order of solutions.
#[derive(Debug, PartialEq)]
pub struct Database {
    rules: Vec<Rule>,
}

impl View for Database {
    type V = Seq<SpecRule>;

    closed spec fn view(&self) -> Seq<SpecRule> {
        self.rules.deep_view()
    }
}

impl Database {
    /// A database with no clauses.
    pub fn empty() -> (r: Self)
        ensures
            r@ == Seq::<SpecRule>::empty(),
    {
        let r = Self { rules: Vec::new() };
        proof {
            assert(r@ =~= Seq::<SpecRule>::empty());
        }
        r
    }

    /// Append a fact: a clause with an empty body.
    pub fn with_fact(self, fact: Term) -> (r: Self)
        ensures
            r@ == self@.push(SpecRule { head: fact@, body: Seq::empty() }),
    {
        let body: Vec<Term> = Vec::new();
        proof {
            assert(body.deep_view() =~= Seq::<crate::term::SpecTerm>::empty());
        }
        let mut rules = self.rules;
        rules.push(Rule { head: fact, body });
        let r = Self { rules };
        proof {
            assert(r@ =~= self@.push(SpecRule { head: fact@, body: Seq::empty() }));
        }
        r
    }

    /// Append a clause with the given head and body goals.
    pub fn with_rule(self, head: Term, body: Vec<Term>) -> (r: Self)
        ensures
            r@ == self@.push(SpecRule { head: head@, body: body.deep_view() }),
    {
        let ghost body_spec = body.deep_view();
        let mut rules = self.rules;
        rules.push(Rule { head, body });
        let r = Self { rules };
        proof {
            assert(r@ =~= self@.push(SpecRule { head: head@, body: body_spec }));
        }
        r
    }

    /// The clauses, in declaration order.
    pub fn rules(&self) -> (r: &Vec<Rule>)
        ensures
            r.deep_view() == self@,
    {
        &self.rules
    }
}

} // verus!
