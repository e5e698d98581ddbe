use vstd::prelude::*;

use crate::assignments::{al_insert, Assignments, SpecBindings};
use crate::term::{lemma_fv_set_of_args_superset, str_eq, SpecBinding, SpecTerm, Term};

verus! {

/// A pending equation between two terms.
pub type SpecConstraint = (SpecTerm, SpecTerm);

/// The equations a vector of term pairs stands for, in order.
pub open spec fn constraints_view(v: Vec<(Term, Term)>) -> Seq<SpecConstraint> {
    Seq::new(v@.len(), |i: int| (v@[i].0@, v@[i].1@))
}

/// Every pending equation with `v` replaced by `t` on both sides.
pub open spec fn subst_constraints(
    cs: Seq<SpecConstraint>,
    v: Seq<char>,
    t: SpecTerm,
) -> Seq<SpecConstraint> {
    Seq::new(cs.len(), |i: int| (cs[i].0.subst(v, t), cs[i].1.subst(v, t)))
}

/// Argument pairs of two functors, reversed, so that popping from the end of
/// the stack yields them left to right.
pub open spec fn zip_rev(a: Seq<SpecTerm>, b: Seq<SpecTerm>) -> Seq<SpecConstraint> {
    Seq::new(a.len(), |i: int| (a[a.len() - 1 - i], b[a.len() - 1 - i]))
}

/// The constraint-stack unification algorithm, one recursion step per unit of
/// `fuel`. The outer `None` means the fuel ran out; `Some(None)` is a clash;
/// `Some(Some(al))` is success with the bindings `al`, eliminated variables
/// inserted innermost first.
pub open spec fn unify_steps(cs: Seq<SpecConstraint>, fuel: nat) -> Option<
    Option<SpecBindings>,
>
    decreases fuel,
{
    if cs.len() == 0 {
        Some(Some(Seq::empty()))
    } else if fuel == 0 {
        None
    } else {
        let lhs = cs.last().0;
        let rhs = cs.last().1;
        let rest = cs.drop_last();
        if lhs == rhs {
            unify_steps(rest, (fuel - 1) as nat)
        } else if lhs is Var {
            let v = lhs->Var_name;
            match unify_steps(subst_constraints(rest, v, rhs), (fuel - 1) as nat) {
                None => None,
                Some(None) => Some(None),
                Some(Some(al)) => Some(Some(al_insert(al, v, rhs))),
            }
        } else if rhs is Var {
            let v = rhs->Var_name;
            match unify_steps(subst_constraints(rest, v, lhs), (fuel - 1) as nat) {
                None => None,
                Some(None) => Some(None),
                Some(Some(al)) => Some(Some(al_insert(al, v, lhs))),
            }
        } else if lhs->App_name == rhs->App_name && lhs->App_args.len() == rhs->App_args.len() {
            unify_steps(rest + zip_rev(lhs->App_args, rhs->App_args), (fuel - 1) as nat)
        } else {
            Some(None)
        }
    }
}

/// The recursion budget: more steps than any run that returns can take.
pub open spec fn step_budget() -> nat {
    u64::MAX as nat
}

/// What `unify` returns on two terms: the outcome of the constraint-stack
/// algorithm under the full budget; a run that would exhaust the budget is
/// reported as a clash.
pub open spec fn unify_outcome(a: SpecTerm, b: SpecTerm) -> Option<SpecBindings> {
    match unify_steps(seq![(a, b)], step_budget()) {
        Some(o) => o,
        None => None,
    }
}

/// The outcome of unification: the unifying bindings, or failure, which is
/// expected and drives backtracking.
#[derive(Debug, PartialEq)]
pub enum UnifyResult {
    True(Assignments),
    False,
}

impl View for UnifyResult {
    type V = Option<SpecBindings>;

    open spec fn view(&self) -> Option<SpecBindings> {
        match self {
            UnifyResult::True(a) => Some(a@),
            UnifyResult::False => None,
        }
    }
}

/// One step of the constraint-stack loop, mirrored by `unify_steps`.
#[verifier::loop_isolation(false)]
fn unify_terms(constraints: Vec<(Term, Term)>, fuel: u64) -> (r: Option<UnifyResult>)
    ensures
        match r {
            Some(u) => unify_steps(constraints_view(constraints), fuel as nat) == Some(u@) && (
            u matches UnifyResult::True(al) ==> al.wf()),
            None => unify_steps(constraints_view(constraints), fuel as nat) is None,
        },
    decreases fuel,
{
    let ghost cs0 = constraints_view(constraints);
    let mut constraints = constraints;
    if constraints.len() == 0 {
        return Some(UnifyResult::True(Assignments::empty()));
    }
    if fuel == 0 {
        return None;
    }
    let popped = constraints.pop().unwrap();
    let (lhs, rhs) = popped;
    proof {
        assert(constraints_view(constraints) =~= cs0.drop_last());
        assert(cs0.last() == (lhs@, rhs@));
    }
    if lhs.same_term(&rhs) {
        return unify_terms(constraints, fuel - 1);
    }
    match (lhs, rhs) {
        (Term::Variable { name }, term) => {
            let substituted = substitute_stack(constraints, name.as_str(), &term);
            match unify_terms(substituted, fuel - 1) {
                None => None,
                Some(UnifyResult::False) => Some(UnifyResult::False),
                Some(UnifyResult::True(al)) => Some(
                    UnifyResult::True(al.with(name.as_str(), term)),
                ),
            }
        },
        (term, Term::Variable { name }) => {
            let substituted = substitute_stack(constraints, name.as_str(), &term);
            match unify_terms(substituted, fuel - 1) {
                None => None,
                Some(UnifyResult::False) => Some(UnifyResult::False),
                Some(UnifyResult::True(al)) => Some(
                    UnifyResult::True(al.with(name.as_str(), term)),
                ),
            }
        },
        (
            Term::Functor { name: a_name, arguments: a_args },
            Term::Functor { name: b_name, arguments: b_args },
        ) => {
            if str_eq(a_name.as_str(), b_name.as_str()) && a_args.len() == b_args.len() {
                let ghost a_spec = (SpecTerm::App {
                    name: a_name@,
                    args: a_args.deep_view(),
                })->App_args;
                let ghost b_spec = (SpecTerm::App {
                    name: b_name@,
                    args: b_args.deep_view(),
                })->App_args;
                let ghost n = a_spec.len();
                proof {
                    assert(cs0.last().0->App_args =~= a_spec);
                    assert(cs0.last().1->App_args =~= b_spec);
                }
                let mut a_args = a_args;
                let mut b_args = b_args;
                while a_args.len() > 0
                    invariant
                        a_args@.len() == b_args@.len(),
                        a_args@.len() <= n,
                        forall|j: int| 0 <= j < a_args@.len() ==> a_args@[j]@ == a_spec[j],
                        forall|j: int| 0 <= j < b_args@.len() ==> b_args@[j]@ == b_spec[j],
                        constraints_view(constraints) =~= cs0.drop_last() + zip_rev(
                            a_spec,
                            b_spec,
                        ).take(n - a_args@.len()),
                    decreases a_args@.len(),
                {
                    let ghost k = n - a_args@.len();
                    let x = a_args.pop().unwrap();
                    let y = b_args.pop().unwrap();
                    let ghost prev = constraints_view(constraints);
                    constraints.push((x, y));
                    proof {
                        let z = zip_rev(a_spec, b_spec);
                        assert(x@ == a_spec[n - 1 - k]);
                        assert(y@ == b_spec[n - 1 - k]);
                        assert(constraints_view(constraints) =~= prev.push((x@, y@)));
                        assert(z[k] == (x@, y@));
                        assert(z.take(k + 1) =~= z.take(k).push(z[k]));
                        assert(constraints_view(constraints) =~= cs0.drop_last() + z.take(
                            n - a_args@.len(),
                        ));
                    }
                }
                proof {
                    assert(zip_rev(a_spec, b_spec).take(n - 0) =~= zip_rev(a_spec, b_spec));
                    assert(constraints_view(constraints) =~= cs0.drop_last() + zip_rev(
                        a_spec,
                        b_spec,
                    ));
                }
                unify_terms(constraints, fuel - 1)
            } else {
                proof {
                    if a_args.deep_view().len() != b_args.deep_view().len() {
                        assert(cs0.last().0->App_args.len() != cs0.last().1->App_args.len());
                    }
                }
                Some(UnifyResult::False)
            }
        },
    }
}

/// Replace `name` by `term` on both sides of every pending equation.
#[verifier::loop_isolation(false)]
fn substitute_stack(constraints: Vec<(Term, Term)>, name: &str, term: &Term) -> (r: Vec<
    (Term, Term),
>)
    ensures
        constraints_view(r) == subst_constraints(constraints_view(constraints), name@, term@),
{
    let mut out: Vec<(Term, Term)> = Vec::new();
    let mut i: usize = 0;
    while i < constraints.len()
        invariant
            0 <= i <= constraints@.len(),
            out@.len() == i,
            forall|j: int|
                0 <= j < i ==> (out@[j].0@, out@[j].1@) == (
                    constraints@[j].0@.subst(name@, term@),
                    constraints@[j].1@.subst(name@, term@),
                ),
        decreases constraints@.len() - i,
    {
        let s0 = constraints[i].0.substitute(name, term);
        let s1 = constraints[i].1.substitute(name, term);
        out.push((s0, s1));
        i += 1;
    }
    proof {
        assert(constraints_view(out) =~= subst_constraints(
            constraints_view(constraints),
            name@,
            term@,
        ));
    }
    out
}

/// Unify two terms: find bindings under which they become structurally equal,
/// or report that there are none. There is no occurs-check; argument pairs are
/// processed left to right, and the left term's variables are bound first.
pub fn unify(a: Term, b: Term) -> (r: UnifyResult)
    ensures
        r@ == unify_outcome(a@, b@),
        r matches UnifyResult::True(al) ==> al.wf(),
{
    let mut stack: Vec<(Term, Term)> = Vec::new();
    let ghost a_spec = a@;
    let ghost b_spec = b@;
    stack.push((a, b));
    proof {
        assert(constraints_view(stack) =~= seq![(a_spec, b_spec)]);
    }
    match unify_terms(stack, u64::MAX) {
        Some(u) => u,
        None => UnifyResult::False,
    }
}


/// `n` with the names `a` and `b` exchanged.
pub open spec fn swap_name(n: Seq<char>, a: Seq<char>, b: Seq<char>) -> Seq<char> {
    if n == a {
        b
    } else if n == b {
        a
    } else {
        n
    }
}

/// `t` with the variable names `a` and `b` exchanged throughout.
pub open spec fn swap_term(t: SpecTerm, a: Seq<char>, b: Seq<char>) -> SpecTerm
    decreases t,
{
    match t {
        SpecTerm::Var { name } => SpecTerm::Var { name: swap_name(name, a, b) },
        SpecTerm::App { name, args } => SpecTerm::App {
            name,
            args: Seq::new(
                args.len(),
                |i: int| if 0 <= i < args.len() {
                    swap_term(args[i], a, b)
                } else {
                    t
                },
            ),
        },
    }
}

/// Every equation with the two names exchanged on both sides.
pub open spec fn swap_pairs(cs: Seq<SpecConstraint>, a: Seq<char>, b: Seq<char>) -> Seq<
    SpecConstraint,
> {
    Seq::new(cs.len(), |i: int| (swap_term(cs[i].0, a, b), swap_term(cs[i].1, a, b)))
}

/// Every equation with its two sides exchanged.
pub open spec fn flip_pairs(cs: Seq<SpecConstraint>) -> Seq<SpecConstraint> {
    Seq::new(cs.len(), |i: int| (cs[i].1, cs[i].0))
}

/// How a run ended: out of fuel, a clash, or success.
pub open spec fn outcome_kind(o: Option<Option<SpecBindings>>) -> int {
    match o {
        None => 0,
        Some(None) => 1,
        Some(Some(al)) => 2,
    }
}

/// Exchanging two names twice changes nothing.
pub proof fn lemma_swap_term_involution(t: SpecTerm, a: Seq<char>, b: Seq<char>)
    ensures
        swap_term(swap_term(t, a, b), a, b) == t,
    decreases t,
{
    match t {
        SpecTerm::Var { name } => {},
        SpecTerm::App { name, args } => {
            assert forall|i: int| 0 <= i < args.len() implies swap_term(
                swap_term(args[i], a, b),
                a,
                b,
            ) == args[i] by {
                lemma_swap_term_involution(args[i], a, b);
            }
            assert(swap_term(swap_term(t, a, b), a, b)->App_args =~= args);
        },
    }
}

/// Exchanging names commutes with substitution.
pub proof fn lemma_swap_subst(t: SpecTerm, v: Seq<char>, r: SpecTerm, a: Seq<char>, b: Seq<char>)
    ensures
        swap_term(t.subst(v, r), a, b) == swap_term(t, a, b).subst(
            swap_name(v, a, b),
            swap_term(r, a, b),
        ),
    decreases t,
{
    match t {
        SpecTerm::Var { name } => {},
        SpecTerm::App { name, args } => {
            assert forall|i: int| 0 <= i < args.len() implies swap_term(
                args[i].subst(v, r),
                a,
                b,
            ) == swap_term(args[i], a, b).subst(swap_name(v, a, b), swap_term(r, a, b)) by {
                lemma_swap_subst(args[i], v, r, a, b);
            }
            assert(swap_term(t.subst(v, r), a, b)->App_args =~= swap_term(t, a, b).subst(
                swap_name(v, a, b),
                swap_term(r, a, b),
            )->App_args);
        },
    }
}

/// Substituting one variable for another is the mirror image of substituting
/// the other for the one, up to exchanging the two names.
pub proof fn lemma_swap_subst_var(t: SpecTerm, v: Seq<char>, w: Seq<char>)
    requires
        v != w,
    ensures
        swap_term(t.subst(v, SpecTerm::Var { name: w }), v, w) == t.subst(
            w,
            SpecTerm::Var { name: v },
        ),
    decreases t,
{
    match t {
        SpecTerm::Var { name } => {},
        SpecTerm::App { name, args } => {
            assert forall|i: int| 0 <= i < args.len() implies swap_term(
                args[i].subst(v, SpecTerm::Var { name: w }),
                v,
                w,
            ) == args[i].subst(w, SpecTerm::Var { name: v }) by {
                lemma_swap_subst_var(args[i], v, w);
            }
            assert(swap_term(t.subst(v, SpecTerm::Var { name: w }), v, w)->App_args =~= t.subst(
                w,
                SpecTerm::Var { name: v },
            )->App_args);
        },
    }
}

/// The run of the algorithm ends the same way when two variable names are
/// exchanged throughout the equations.
pub proof fn lemma_unify_steps_swap(
    cs: Seq<SpecConstraint>,
    a: Seq<char>,
    b: Seq<char>,
    fuel: nat,
)
    ensures
        outcome_kind(unify_steps(swap_pairs(cs, a, b), fuel)) == outcome_kind(
            unify_steps(cs, fuel),
        ),
    decreases fuel,
{
    let sw = swap_pairs(cs, a, b);
    if cs.len() == 0 {
    } else if fuel == 0 {
    } else {
        let lhs = cs.last().0;
        let rhs = cs.last().1;
        let rest = cs.drop_last();
        assert(sw.last() == (swap_term(lhs, a, b), swap_term(rhs, a, b)));
        assert(sw.drop_last() =~= swap_pairs(rest, a, b));
        if lhs == rhs {
            lemma_unify_steps_swap(rest, a, b, (fuel - 1) as nat);
        } else {
            assert(swap_term(lhs, a, b) != swap_term(rhs, a, b)) by {
                if swap_term(lhs, a, b) == swap_term(rhs, a, b) {
                    lemma_swap_term_involution(lhs, a, b);
                    lemma_swap_term_involution(rhs, a, b);
                }
            }
            if lhs is Var {
                let v = lhs->Var_name;
                let sub = subst_constraints(rest, v, rhs);
                assert(subst_constraints(swap_pairs(rest, a, b), swap_name(v, a, b), swap_term(
                    rhs,
                    a,
                    b,
                )) =~= swap_pairs(sub, a, b)) by {
                    assert forall|i: int| 0 <= i < rest.len() implies (swap_term(rest[i].0, a, b)
                        .subst(swap_name(v, a, b), swap_term(rhs, a, b)), swap_term(rest[i].1, a, b)
                        .subst(swap_name(v, a, b), swap_term(rhs, a, b))) == (swap_term(
                        rest[i].0.subst(v, rhs),
                        a,
                        b,
                    ), swap_term(rest[i].1.subst(v, rhs), a, b)) by {
                        lemma_swap_subst(rest[i].0, v, rhs, a, b);
                        lemma_swap_subst(rest[i].1, v, rhs, a, b);
                    }
                }
                lemma_unify_steps_swap(sub, a, b, (fuel - 1) as nat);
            } else if rhs is Var {
                let v = rhs->Var_name;
                let sub = subst_constraints(rest, v, lhs);
                assert(subst_constraints(swap_pairs(rest, a, b), swap_name(v, a, b), swap_term(
                    lhs,
                    a,
                    b,
                )) =~= swap_pairs(sub, a, b)) by {
                    assert forall|i: int| 0 <= i < rest.len() implies (swap_term(rest[i].0, a, b)
                        .subst(swap_name(v, a, b), swap_term(lhs, a, b)), swap_term(rest[i].1, a, b)
                        .subst(swap_name(v, a, b), swap_term(lhs, a, b))) == (swap_term(
                        rest[i].0.subst(v, lhs),
                        a,
                        b,
                    ), swap_term(rest[i].1.subst(v, lhs), a, b)) by {
                        lemma_swap_subst(rest[i].0, v, lhs, a, b);
                        lemma_swap_subst(rest[i].1, v, lhs, a, b);
                    }
                }
                lemma_unify_steps_swap(sub, a, b, (fuel - 1) as nat);
            } else if lhs->App_name == rhs->App_name && lhs->App_args.len()
                == rhs->App_args.len() {
                let next = rest + zip_rev(lhs->App_args, rhs->App_args);
                assert(swap_pairs(rest, a, b) + zip_rev(
                    swap_term(lhs, a, b)->App_args,
                    swap_term(rhs, a, b)->App_args,
                ) =~= swap_pairs(next, a, b));
                lemma_unify_steps_swap(next, a, b, (fuel - 1) as nat);
            } else {
            }
        }
    }
}

/// The run of the algorithm ends the same way when every equation is read
/// right to left.
pub proof fn lemma_unify_steps_flip(cs: Seq<SpecConstraint>, fuel: nat)
    ensures
        outcome_kind(unify_steps(flip_pairs(cs), fuel)) == outcome_kind(unify_steps(cs, fuel)),
    decreases fuel,
{
    let fl = flip_pairs(cs);
    if cs.len() == 0 {
    } else if fuel == 0 {
    } else {
        let lhs = cs.last().0;
        let rhs = cs.last().1;
        let rest = cs.drop_last();
        assert(fl.last() == (rhs, lhs));
        assert(fl.drop_last() =~= flip_pairs(rest));
        if lhs == rhs {
            lemma_unify_steps_flip(rest, (fuel - 1) as nat);
        } else if lhs is Var && rhs is Var {
            let v = lhs->Var_name;
            let w = rhs->Var_name;
            let sub = subst_constraints(rest, v, rhs);
            let sub_f = subst_constraints(flip_pairs(rest), w, lhs);
            assert(sub_f =~= flip_pairs(subst_constraints(rest, w, lhs)));
            lemma_unify_steps_flip(subst_constraints(rest, w, lhs), (fuel - 1) as nat);
            assert(swap_pairs(sub, v, w) =~= subst_constraints(rest, w, lhs)) by {
                assert forall|i: int| 0 <= i < rest.len() implies (swap_term(
                    rest[i].0.subst(v, rhs),
                    v,
                    w,
                ), swap_term(rest[i].1.subst(v, rhs), v, w)) == (rest[i].0.subst(w, lhs), rest[i]
                    .1.subst(w, lhs)) by {
                    lemma_swap_subst_var(rest[i].0, v, w);
                    lemma_swap_subst_var(rest[i].1, v, w);
                }
            }
            lemma_unify_steps_swap(sub, v, w, (fuel - 1) as nat);
        } else if lhs is Var {
            let v = lhs->Var_name;
            let sub = subst_constraints(rest, v, rhs);
            assert(subst_constraints(flip_pairs(rest), v, rhs) =~= flip_pairs(sub));
            lemma_unify_steps_flip(sub, (fuel - 1) as nat);
        } else if rhs is Var {
            let v = rhs->Var_name;
            let sub = subst_constraints(rest, v, lhs);
            assert(subst_constraints(flip_pairs(rest), v, lhs) =~= flip_pairs(sub));
            lemma_unify_steps_flip(sub, (fuel - 1) as nat);
        } else if lhs->App_name == rhs->App_name && lhs->App_args.len() == rhs->App_args.len() {
            let next = rest + zip_rev(lhs->App_args, rhs->App_args);
            let next_f = flip_pairs(rest) + zip_rev(rhs->App_args, lhs->App_args);
            assert(next_f =~= flip_pairs(next));
            lemma_unify_steps_flip(next, (fuel - 1) as nat);
        } else {
        }
    }
}

/// Unifier symmetry: unifying two terms succeeds exactly when unifying them
/// in the other order does, though the bindings themselves may differ, the
/// leftmost variable being bound first.
pub proof fn lemma_unify_symmetry(a: SpecTerm, b: SpecTerm)
    ensures
        (unify_outcome(a, b) is Some) <==> (unify_outcome(b, a) is Some),
{
    assert(flip_pairs(seq![(a, b)]) =~= seq![(b, a)]);
    lemma_unify_steps_flip(seq![(a, b)], step_budget());
}


/// A term in which no variable occurs.
pub open spec fn is_ground(t: SpecTerm) -> bool {
    t.fv_set() == Set::<Seq<char>>::empty()
}

/// Equations whose two sides are already equal each leave the stack in one
/// step, with nothing bound.
proof fn lemma_unify_steps_equal_pairs(cs: Seq<SpecConstraint>, fuel: nat)
    requires
        forall|i: int| 0 <= i < cs.len() ==> cs[i].0 == cs[i].1,
        fuel >= cs.len(),
    ensures
        unify_steps(cs, fuel) == Some(Some(Seq::<SpecBinding>::empty())),
    decreases cs.len(),
{
    if cs.len() > 0 {
        assert(cs.last().0 == cs.last().1);
        lemma_unify_steps_equal_pairs(cs.drop_last(), (fuel - 1) as nat);
    }
}

/// Unifying a term with itself succeeds with the empty unifier, under which
/// both sides are one and the same term.
pub proof fn lemma_unify_reflexive(a: SpecTerm)
    ensures
        unify_outcome(a, a) == Some(Seq::<SpecBinding>::empty()),
{
    lemma_unify_steps_equal_pairs(seq![(a, a)], step_budget());
}

/// On variable-free equations a successful run shows its sides equal, and
/// binds nothing.
proof fn lemma_unify_steps_ground(cs: Seq<SpecConstraint>, fuel: nat)
    requires
        forall|i: int| 0 <= i < cs.len() ==> is_ground(#[trigger] cs[i].0) && is_ground(cs[i].1),
        outcome_kind(unify_steps(cs, fuel)) == 2,
    ensures
        forall|i: int| 0 <= i < cs.len() ==> cs[i].0 == cs[i].1,
        unify_steps(cs, fuel) == Some(Some(Seq::<SpecBinding>::empty())),
    decreases fuel,
{
    if cs.len() == 0 {
    } else {
        let lhs = cs.last().0;
        let rhs = cs.last().1;
        let rest = cs.drop_last();
        assert(is_ground(lhs) && is_ground(rhs));
        assert(forall|i: int| 0 <= i < rest.len() ==> rest[i] == cs[i]);
        if lhs == rhs {
            lemma_unify_steps_ground(rest, (fuel - 1) as nat);
        } else if lhs is Var {
            assert(lhs.fv_set().contains(lhs->Var_name));
        } else if rhs is Var {
            assert(rhs.fv_set().contains(rhs->Var_name));
        } else if lhs->App_name == rhs->App_name && lhs->App_args.len() == rhs->App_args.len() {
            let la = lhs->App_args;
            let ra = rhs->App_args;
            let next = rest + zip_rev(la, ra);
            assert forall|i: int|
                0 <= i < next.len() implies is_ground(#[trigger] next[i].0) && is_ground(
                next[i].1,
            ) by {
                if i >= rest.len() {
                    let j = la.len() - 1 - (i - rest.len());
                    assert(next[i] == (la[j], ra[j]));
                    lemma_fv_set_of_args_superset(la, 0, j);
                    lemma_fv_set_of_args_superset(ra, 0, j);
                    assert(lhs.fv_set() == SpecTerm::fv_set_of_args(la, 0));
                    assert(rhs.fv_set() == SpecTerm::fv_set_of_args(ra, 0));
                    assert(la[j].fv_set() =~= Set::<Seq<char>>::empty());
                    assert(ra[j].fv_set() =~= Set::<Seq<char>>::empty());
                }
            }
            lemma_unify_steps_ground(next, (fuel - 1) as nat);
            assert forall|j: int| 0 <= j < la.len() implies la[j] == ra[j] by {
                let i = rest.len() + (la.len() - 1 - j);
                assert(next[i] == (la[j], ra[j]));
            }
            assert(la =~= ra);
            assert(lhs == rhs);
        } else {
        }
    }
}

/// Unifier soundness on variable-free terms: unification succeeds exactly on
/// structurally equal terms, with the empty unifier, under which the two
/// sides are equal as they stand.
pub proof fn lemma_unify_ground_soundness(a: SpecTerm, b: SpecTerm)
    requires
        is_ground(a),
        is_ground(b),
    ensures
        match unify_outcome(a, b) {
            Some(al) => al == Seq::<SpecBinding>::empty() && a == b,
            None => a != b,
        },
{
    if a == b {
        lemma_unify_reflexive(a);
    }
    if unify_outcome(a, b) is Some {
        assert(outcome_kind(unify_steps(seq![(a, b)], step_budget())) == 2);
        assert(forall|i: int|
            0 <= i < seq![(a, b)].len() ==> is_ground(#[trigger] seq![(a, b)][i].0) && is_ground(
                seq![(a, b)][i].1,
            ));
        lemma_unify_steps_ground(seq![(a, b)], step_budget());
        assert(seq![(a, b)][0] == (a, b));
    }
}

} // verus!
