pub mod temp_provider;

pub use temp_provider::TempProvider;

use crate::assignments::{al_insert_all, al_merge, al_wf, normalized_spec, Assignments, SpecBindings};
use crate::database::{Database, SpecRule};
use crate::term::{lemma_free_vars_into_absorbed, SpecBinding, SpecTerm, Term};
use crate::unification::{
    is_ground, lemma_unify_ground_soundness, step_budget, unify, unify_outcome, UnifyResult,
};
use temp_provider::{counter_plus, temp_name};
use vstd::prelude::*;

verus! {

/// The bindings a vector of assignments stands for, in order.
pub open spec fn asgs_view(v: Vec<Assignments>) -> Seq<SpecBindings> {
    Seq::new(v@.len(), |i: int| v@[i]@)
}

/// Every element binds no variable twice.
pub open spec fn all_wf(s: Seq<SpecBindings>) -> bool {
    forall|i: int| 0 <= i < s.len() ==> al_wf(s[i])
}

/// The free variables of a clause: those of the head, then those of the body
/// goals, in first-occurrence order.
pub open spec fn rule_fvs(r: SpecRule) -> Seq<Seq<char>> {
    SpecTerm::free_vars_of_args(r.body, 0, r.head.free_vars())
}

/// Each name of `fvs`, in order, bound to the next placeholder variable.
pub open spec fn fresh_pairs(fvs: Seq<Seq<char>>, c: nat) -> SpecBindings {
    Seq::new(
        fvs.len(),
        |i: int| (fvs[i], SpecTerm::Var { name: temp_name(counter_plus(c, (i + 1) as nat)) }),
    )
}

/// The renaming a clause receives when it is selected with counter `c`.
pub open spec fn fresh_sub(r: SpecRule, c: nat) -> SpecBindings {
    al_insert_all(Seq::empty(), fresh_pairs(rule_fvs(r), c))
}

/// The head of a clause after renaming.
pub open spec fn renamed_head(r: SpecRule, c: nat) -> SpecTerm {
    r.head.subst_all(fresh_sub(r, c))
}

/// The body of a clause after renaming.
pub open spec fn renamed_body(r: SpecRule, c: nat) -> Seq<SpecTerm> {
    Seq::new(r.body.len(), |i: int| r.body[i].subst_all(fresh_sub(r, c)))
}

/// The goals each with `s` applied, reversed so that popping from the end of
/// the goal stack yields them in source order.
pub open spec fn rev_subst_goals(goals: Seq<SpecTerm>, s: SpecBindings) -> Seq<SpecTerm> {
    Seq::new(goals.len(), |i: int| goals[goals.len() - 1 - i].subst_all(s))
}

/// The goals each with `s` applied, in order.
pub open spec fn subst_goals(goals: Seq<SpecTerm>, s: SpecBindings) -> Seq<SpecTerm> {
    Seq::new(goals.len(), |i: int| goals[i].subst_all(s))
}

/// `base` merged with each solution of `sols[from..]` in order; a merge
/// conflict drops that solution.
pub open spec fn merge_into(base: SpecBindings, sols: Seq<SpecBindings>, from: int) -> Seq<
    SpecBindings,
>
    decreases sols.len() - from,
{
    if from < 0 || from >= sols.len() {
        Seq::empty()
    } else {
        match al_merge(base, sols[from]) {
            Some(m) => seq![m] + merge_into(base, sols, from + 1),
            None => merge_into(base, sols, from + 1),
        }
    }
}

/// Resolve `goal` against the clauses of `db` from index `ri` on: rename the
/// clause, unify the goal with its head, solve the renamed body, and merge
/// each body solution into the head bindings. `sols` accumulates solutions in
/// clause order; `c` is the fresh-name counter; each recursive descent into
/// subgoals spends one unit of `fuel`, and `None` means the fuel ran out.
pub open spec fn expand_goal(
    db: Seq<SpecRule>,
    goal: SpecTerm,
    ri: int,
    sols: Seq<SpecBindings>,
    c: nat,
    fuel: nat,
) -> Option<(Seq<SpecBindings>, nat)>
    decreases fuel, 0int, db.len() - ri,
{
    if ri < 0 || ri >= db.len() {
        Some((sols, c))
    } else {
        let rule = db[ri];
        let c2 = counter_plus(c, rule_fvs(rule).len());
        match unify_outcome(goal, renamed_head(rule, c)) {
            None => expand_goal(db, goal, ri + 1, sols, c2, fuel),
            Some(ha) => {
                if fuel == 0 {
                    None
                } else {
                    let subgoals = rev_subst_goals(renamed_body(rule, c), ha);
                    match solve_goals(db, subgoals, c2, (fuel - 1) as nat) {
                        None => None,
                        Some((bs, c3)) => expand_goal(
                            db,
                            goal,
                            ri + 1,
                            sols + merge_into(ha, bs, 0),
                            c3,
                            fuel,
                        ),
                    }
                }
            },
        }
    }
}

/// For each solution of the selected goal, apply it to the remaining goals,
/// solve them, and merge each tail solution in; `acc` accumulates the
/// combined solutions in order.
pub open spec fn continue_goals(
    db: Seq<SpecRule>,
    goals: Seq<SpecTerm>,
    sols: Seq<SpecBindings>,
    si: int,
    acc: Seq<SpecBindings>,
    c: nat,
    fuel: nat,
) -> Option<(Seq<SpecBindings>, nat)>
    decreases fuel, 0int, sols.len() - si,
{
    if si < 0 || si >= sols.len() {
        Some((acc, c))
    } else {
        if fuel == 0 {
            None
        } else {
            let s = sols[si];
            match solve_goals(db, subst_goals(goals, s), c, (fuel - 1) as nat) {
                None => None,
                Some((ts, c2)) => continue_goals(
                    db,
                    goals,
                    sols,
                    si + 1,
                    acc + merge_into(s, ts, 0),
                    c2,
                    fuel,
                ),
            }
        }
    }
}

/// Solve a goal stack against `db`: an empty stack has the single empty
/// solution; otherwise the last goal is selected, expanded against every
/// clause in order, and each of its solutions is continued over the remaining
/// goals. Solutions come in clause order, depth first.
pub open spec fn solve_goals(db: Seq<SpecRule>, goals: Seq<SpecTerm>, c: nat, fuel: nat) -> Option<
    (Seq<SpecBindings>, nat),
>
    decreases fuel, 1int, 0int,
{
    if goals.len() == 0 {
        Some((seq![Seq::<SpecBinding>::empty()], c))
    } else {
        match expand_goal(db, goals.last(), 0, Seq::empty(), c, fuel) {
            None => None,
            Some((sols, c2)) => continue_goals(db, goals.drop_last(), sols, 0, Seq::empty(), c2, fuel),
        }
    }
}

/// What `prove` returns: every solution of the single-goal stack, restricted
/// and normalized to the free variables of the goal, in search order. A
/// search that would exhaust the recursion budget yields nothing.
pub open spec fn prove_spec(db: Seq<SpecRule>, goal: SpecTerm) -> Seq<SpecBindings> {
    match solve_goals(db, seq![goal], 0, step_budget()) {
        None => Seq::empty(),
        Some((sols, c)) => Seq::new(
            sols.len(),
            |i: int| normalized_spec(sols[i], goal.free_vars(), 0, Seq::empty()),
        ),
    }
}

/// Rename every free variable of the clause to a fresh placeholder, the same
/// placeholder for the same variable across head and body.
#[verifier::loop_isolation(false)]
pub fn fresh_variables(rule: &crate::database::Rule, temp_provider: &mut TempProvider) -> (r:
    crate::database::Rule)
    ensures
        r@.head == renamed_head(rule@, old(temp_provider).counter()),
        r@.body.len() == rule@.body.len(),
        forall|i: int|
            0 <= i < rule@.body.len() ==> r@.body[i] == rule@.body[i].subst_all(
                fresh_sub(rule@, old(temp_provider).counter()),
            ),
        final(temp_provider).counter() == counter_plus(
            old(temp_provider).counter(),
            rule_fvs(rule@).len(),
        ),
{
    let ghost c0 = temp_provider.counter();
    let ghost fvs_spec = rule_fvs(rule@);

    let mut fvs = rule.head.free_variables();
    let mut i: usize = 0;
    proof {
        assert(rule@.body.len() == rule.body@.len());
    }
    while i < rule.body.len()
        invariant
            0 <= i <= rule@.body.len(),
            SpecTerm::free_vars_of_args(rule@.body, i as int, fvs.deep_view()) == fvs_spec,
        decreases rule@.body.len() - i,
    {
        fvs = rule.body[i].free_variables_into(fvs);
        i += 1;
    }
    proof {
        assert(fvs.deep_view() == fvs_spec);
    }

    let mut pairs: Vec<(String, Term)> = Vec::new();
    let mut j: usize = 0;
    while j < fvs.len()
        invariant
            0 <= j <= fvs_spec.len(),
            fvs.deep_view() == fvs_spec,
            fvs@.len() == fvs_spec.len(),
            temp_provider.counter() == counter_plus(c0, j as nat),
            pairs@.len() == j,
            forall|k: int|
                0 <= k < j ==> (pairs@[k].0@, pairs@[k].1@) == fresh_pairs(fvs_spec, c0)[k],
        decreases fvs_spec.len() - j,
    {
        proof {
            assert(counter_plus(c0, (j + 1) as nat) == temp_provider::next_counter(
                counter_plus(c0, j as nat),
            ));
        }
        let name = temp_provider.get();
        pairs.push((fvs[j].clone(), Term::Variable { name }));
        j += 1;
    }
    let sub = Assignments::new(pairs);
    proof {
        assert(crate::assignments::pairs_view(pairs) =~= fresh_pairs(fvs_spec, c0));
        assert(sub@ == fresh_sub(rule@, c0));
    }

    let head = rule.head.substitute_all(&sub);
    let mut body: Vec<Term> = Vec::new();
    let mut k: usize = 0;
    while k < rule.body.len()
        invariant
            0 <= k <= rule@.body.len(),
            sub@ == fresh_sub(rule@, c0),
            body@.len() == k,
            forall|m: int| 0 <= m < k ==> body@[m]@ == rule@.body[m].subst_all(fresh_sub(rule@, c0)),
        decreases rule@.body.len() - k,
    {
        body.push(rule.body[k].substitute_all(&sub));
        k += 1;
    }
    let r = crate::database::Rule { head, body };
    r
}

/// Solve a goal stack: the last goal is resolved against every clause in
/// order; its solutions are carried into the remaining goals. `None` reports
/// an exhausted recursion budget.
#[verifier::loop_isolation(false)]
pub fn prove_goals(
    database: &Database,
    goals: Vec<Term>,
    temp_provider: &mut TempProvider,
    fuel: u64,
) -> (r: Option<Vec<Assignments>>)
    ensures
        match r {
            Some(v) => solve_goals(
                database@,
                goals.deep_view(),
                old(temp_provider).counter(),
                fuel as nat,
            ) == Some((asgs_view(v), final(temp_provider).counter())) && all_wf(asgs_view(v)),
            None => solve_goals(
                database@,
                goals.deep_view(),
                old(temp_provider).counter(),
                fuel as nat,
            ) is None,
        },
    decreases fuel,
{
    let ghost c0 = temp_provider.counter();
    let ghost goals_spec = goals.deep_view();
    let ghost db = database@;

    let mut goals = goals;
    match goals.pop() {
        None => {
            let mut one: Vec<Assignments> = Vec::new();
            one.push(Assignments::empty());
            proof {
                assert(goals_spec.len() == 0);
                assert(asgs_view(one) =~= seq![Seq::<SpecBinding>::empty()]);
            }
            Some(one)
        },
        Some(goal) => {
            proof {
                assert(goals.deep_view() =~= goals_spec.drop_last());
                assert(goal@ == goals_spec.last());
            }
            let ghost rest_spec = goals_spec.drop_last();

            let rules = database.rules();
            let mut solutions: Vec<Assignments> = Vec::new();
            let mut ri: usize = 0;
            proof {
                assert(asgs_view(solutions) =~= Seq::<SpecBindings>::empty());
            }
            while ri < rules.len()
                invariant
                    0 <= ri <= db.len(),
                    all_wf(asgs_view(solutions)),
                    expand_goal(
                        db,
                        goals_spec.last(),
                        ri as int,
                        asgs_view(solutions),
                        temp_provider.counter(),
                        fuel as nat,
                    ) == expand_goal(db, goals_spec.last(), 0, Seq::empty(), c0, fuel as nat),
                decreases db.len() - ri,
            {
                let ghost c_here = temp_provider.counter();
                let ghost sols_here = asgs_view(solutions);
                proof {
                    assert(rules.deep_view()[ri as int] == db[ri as int]);
                }
                let renamed = fresh_variables(&rules[ri], temp_provider);
                match unify(goal.duplicate(), renamed.head.duplicate()) {
                    UnifyResult::False => {
                        proof {
                            assert(unify_outcome(
                                goals_spec.last(),
                                renamed_head(db[ri as int], c_here),
                            ) is None);
                        }
                    },
                    UnifyResult::True(head_assignments) => {
                        proof {
                            assert(unify_outcome(
                                goals_spec.last(),
                                renamed_head(db[ri as int], c_here),
                            ) == Some(head_assignments@));
                        }
                        if fuel == 0 {
                            return None;
                        }
                        let mut sub_goals: Vec<Term> = Vec::new();
                        let mut j: usize = renamed.body.len();
                        while j > 0
                            invariant
                                0 <= j <= renamed.body@.len(),
                                sub_goals@.len() == renamed.body@.len() - j,
                                forall|m: int|
                                    0 <= m < sub_goals@.len() ==> sub_goals@[m]@
                                        == renamed.body@[renamed.body@.len() - 1 - m]@.subst_all(
                                        head_assignments@,
                                    ),
                            decreases j,
                        {
                            j -= 1;
                            sub_goals.push(renamed.body[j].substitute_all(&head_assignments));
                        }
                        proof {
                            let target = rev_subst_goals(
                                renamed_body(db[ri as int], c_here),
                                head_assignments@,
                            );
                            let n2 = renamed.body@.len();
                            assert(renamed@.body.len() == n2);
                            assert(sub_goals.deep_view().len() == n2);
                            assert(target.len() == n2);
                            assert forall|m: int|
                                0 <= m < n2 implies sub_goals.deep_view()[m] == target[m] by {
                                assert(sub_goals.deep_view()[m] == sub_goals@[m]@);
                                assert(renamed@.body[n2 - 1 - m] == renamed.body@[n2 - 1 - m]@);
                                assert(renamed@.body[n2 - 1 - m] == renamed_body(
                                    db[ri as int],
                                    c_here,
                                )[n2 - 1 - m]);
                            }
                            assert(sub_goals.deep_view() =~= target);
                        }
                        match prove_goals(database, sub_goals, temp_provider, fuel - 1) {
                            None => {
                                return None;
                            },
                            Some(body_solutions) => {
                                let ghost bs = asgs_view(body_solutions);
                                let mut k: usize = 0;
                                while k < body_solutions.len()
                                    invariant
                                        0 <= k <= bs.len(),
                                        body_solutions@.len() == bs.len(),
                                        all_wf(asgs_view(solutions)),
                                        sols_here + merge_into(head_assignments@, bs, 0)
                                            =~= asgs_view(solutions) + merge_into(
                                            head_assignments@,
                                            bs,
                                            k as int,
                                        ),
                                    decreases bs.len() - k,
                                {
                                    proof {
                                        assert(body_solutions@[k as int]@ == bs[k as int]);
                                    }
                                    let ghost before = asgs_view(solutions);
                                    match head_assignments.duplicate().merge(
                                        body_solutions[k].duplicate(),
                                    ) {
                                        Some(m) => {
                                            let ghost mm = m@;
                                            solutions.push(m);
                                            proof {
                                                assert(asgs_view(solutions) =~= before.push(mm));
                                                assert(before + (seq![mm] + merge_into(
                                                    head_assignments@,
                                                    bs,
                                                    k + 1,
                                                )) =~= before.push(mm) + merge_into(
                                                    head_assignments@,
                                                    bs,
                                                    k + 1,
                                                ));
                                            }
                                        },
                                        None => {},
                                    }
                                    k += 1;
                                }
                                proof {
                                    assert(merge_into(head_assignments@, bs, bs.len() as int)
                                        =~= Seq::<SpecBindings>::empty());
                                    assert(asgs_view(solutions) =~= asgs_view(solutions) + merge_into(
                                        head_assignments@,
                                        bs,
                                        bs.len() as int,
                                    ));
                                    assert(asgs_view(solutions) =~= sols_here + merge_into(
                                        head_assignments@,
                                        bs,
                                        0,
                                    ));
                                }
                            },
                        }
                    },
                }
                ri += 1;
            }
            proof {
                assert(expand_goal(
                    db,
                    goals_spec.last(),
                    db.len() as int,
                    asgs_view(solutions),
                    temp_provider.counter(),
                    fuel as nat,
                ) == Some((asgs_view(solutions), temp_provider.counter())));
            }

            let ghost c_mid = temp_provider.counter();
            let ghost sols_fixed = asgs_view(solutions);
            let mut results: Vec<Assignments> = Vec::new();
            let mut si: usize = 0;
            proof {
                assert(asgs_view(results) =~= Seq::<SpecBindings>::empty());
            }
            while si < solutions.len()
                invariant
                    0 <= si <= sols_fixed.len(),
                    solutions@.len() == sols_fixed.len(),
                    asgs_view(solutions) == sols_fixed,
                    all_wf(sols_fixed),
                    all_wf(asgs_view(results)),
                    continue_goals(
                        db,
                        rest_spec,
                        sols_fixed,
                        si as int,
                        asgs_view(results),
                        temp_provider.counter(),
                        fuel as nat,
                    ) == continue_goals(db, rest_spec, sols_fixed, 0, Seq::empty(), c_mid, fuel as nat),
                decreases sols_fixed.len() - si,
            {
                if fuel == 0 {
                    return None;
                }
                let ghost res_here = asgs_view(results);
                let solution = solutions[si].duplicate();
                proof {
                    assert(solution@ == sols_fixed[si as int]);
                }
                let mut remaining: Vec<Term> = Vec::new();
                let mut m: usize = 0;
                while m < goals.len()
                    invariant
                        0 <= m <= goals@.len(),
                        goals@.len() == rest_spec.len(),
                        solution@ == sols_fixed[si as int],
                        remaining@.len() == m,
                        forall|q: int|
                            0 <= q < m ==> remaining@[q]@ == rest_spec[q].subst_all(
                                sols_fixed[si as int],
                            ),
                    decreases goals@.len() - m,
                {
                    remaining.push(goals[m].substitute_all(&solution));
                    m += 1;
                }
                proof {
                    assert(remaining.deep_view() =~= subst_goals(rest_spec, sols_fixed[si as int]));
                }
                match prove_goals(database, remaining, temp_provider, fuel - 1) {
                    None => {
                        return None;
                    },
                    Some(tail_solutions) => {
                        let ghost ts = asgs_view(tail_solutions);
                        let mut k: usize = 0;
                        while k < tail_solutions.len()
                            invariant
                                0 <= k <= ts.len(),
                                tail_solutions@.len() == ts.len(),
                                solution@ == sols_fixed[si as int],
                                all_wf(asgs_view(results)),
                                res_here + merge_into(sols_fixed[si as int], ts, 0)
                                    =~= asgs_view(results) + merge_into(
                                    sols_fixed[si as int],
                                    ts,
                                    k as int,
                                ),
                            decreases ts.len() - k,
                        {
                            proof {
                                assert(tail_solutions@[k as int]@ == ts[k as int]);
                            }
                            let ghost before = asgs_view(results);
                            match solution.duplicate().merge(tail_solutions[k].duplicate()) {
                                Some(mrg) => {
                                    let ghost mm = mrg@;
                                    results.push(mrg);
                                    proof {
                                        assert(asgs_view(results) =~= before.push(mm));
                                        assert(before + (seq![mm] + merge_into(
                                            sols_fixed[si as int],
                                            ts,
                                            k + 1,
                                        )) =~= before.push(mm) + merge_into(
                                            sols_fixed[si as int],
                                            ts,
                                            k + 1,
                                        ));
                                    }
                                },
                                None => {},
                            }
                            k += 1;
                        }
                        proof {
                            assert(merge_into(sols_fixed[si as int], ts, ts.len() as int)
                                =~= Seq::<SpecBindings>::empty());
                            assert(asgs_view(results) =~= asgs_view(results) + merge_into(
                                sols_fixed[si as int],
                                ts,
                                ts.len() as int,
                            ));
                            assert(asgs_view(results) =~= res_here + merge_into(
                                sols_fixed[si as int],
                                ts,
                                0,
                            ));
                        }
                    },
                }
                si += 1;
            }
            Some(results)
        },
    }
}

/// Enumerate every binding set under which `goal` follows from `database`:
/// solutions come in clause order, depth first, each restricted and
/// normalized to the free variables of the goal.
#[verifier::loop_isolation(false)]
pub fn prove(database: &Database, goal: Term) -> (r: Vec<Assignments>)
    ensures
        asgs_view(r) == prove_spec(database@, goal@),
        forall|i: int| 0 <= i < r@.len() ==> r@[i].wf(),
{
    let ghost goal_spec = goal@;
    let scope = goal.free_variables();
    let mut temp = TempProvider::default();
    let mut stack: Vec<Term> = Vec::new();
    stack.push(goal);
    proof {
        assert(stack.deep_view() =~= seq![goal_spec]);
    }
    match prove_goals(database, stack, &mut temp, u64::MAX) {
        None => {
            let r: Vec<Assignments> = Vec::new();
            proof {
                assert(asgs_view(r) =~= prove_spec(database@, goal_spec));
            }
            r
        },
        Some(sols) => {
            let ghost sols_spec = asgs_view(sols);
            let mut out: Vec<Assignments> = Vec::new();
            let mut i: usize = 0;
            while i < sols.len()
                invariant
                    0 <= i <= sols_spec.len(),
                    sols@.len() == sols_spec.len(),
                    asgs_view(sols) == sols_spec,
                    out@.len() == i,
                    forall|j: int| 0 <= j < i ==> out@[j].wf(),
                    forall|j: int|
                        0 <= j < i ==> out@[j]@ == normalized_spec(
                            sols_spec[j],
                            goal_spec.free_vars(),
                            0,
                            Seq::empty(),
                        ),
                decreases sols_spec.len() - i,
            {
                proof {
                    assert(sols@[i as int]@ == sols_spec[i as int]);
                }
                out.push(sols[i].duplicate().normalized(&scope));
                i += 1;
            }
            proof {
                assert(asgs_view(out) =~= prove_spec(database@, goal_spec));
            }
            out
        },
    }
}


/// A database of facts alone, none holding a variable.
pub open spec fn is_ground_fact_db(db: Seq<SpecRule>) -> bool {
    forall|i: int| 0 <= i < db.len() ==> (#[trigger] db[i]).body.len() == 0 && is_ground(db[i].head)
}

/// One affirmative, unconditional answer for each clause from `ri` on whose
/// head equals `g`, in clause order.
pub open spec fn fact_matches(db: Seq<SpecRule>, g: SpecTerm, ri: int) -> Seq<SpecBindings>
    decreases db.len() - ri,
{
    if ri < 0 || ri >= db.len() {
        Seq::empty()
    } else if db[ri].head == g {
        seq![Seq::<SpecBinding>::empty()] + fact_matches(db, g, ri + 1)
    } else {
        fact_matches(db, g, ri + 1)
    }
}

/// Every answer counted by `fact_matches` binds nothing.
proof fn lemma_fact_matches_empty(db: Seq<SpecRule>, g: SpecTerm, ri: int)
    ensures
        forall|i: int|
            0 <= i < fact_matches(db, g, ri).len() ==> fact_matches(db, g, ri)[i]
                == Seq::<SpecBinding>::empty(),
    decreases db.len() - ri,
{
    if ri < 0 || ri >= db.len() {
    } else {
        lemma_fact_matches_empty(db, g, ri + 1);
        assert forall|i: int|
            0 <= i < fact_matches(db, g, ri).len() implies fact_matches(db, g, ri)[i]
            == Seq::<SpecBinding>::empty() by {
            if db[ri].head == g {
                if i > 0 {
                    assert(fact_matches(db, g, ri)[i] == fact_matches(db, g, ri + 1)[i - 1]);
                }
            } else {
                assert(fact_matches(db, g, ri)[i] == fact_matches(db, g, ri + 1)[i]);
            }
        }
    }
}

/// Normalizing over no bindings keeps nothing beyond the accumulator.
proof fn lemma_normalized_of_no_bindings(scope: Seq<Seq<char>>, from: int, acc: SpecBindings)
    ensures
        normalized_spec(Seq::<SpecBinding>::empty(), scope, from, acc) == acc,
    decreases scope.len() - from,
{
    if from < 0 || from >= scope.len() {
    } else {
        crate::assignments::lemma_al_first(Seq::<SpecBinding>::empty(), scope[from]);
        lemma_normalized_of_no_bindings(scope, from + 1, acc);
    }
}

/// With no goals left to solve, continuing over the collected solutions just
/// appends them to the accumulator.
proof fn lemma_continue_goals_done(
    db: Seq<SpecRule>,
    sols: Seq<SpecBindings>,
    si: int,
    acc: Seq<SpecBindings>,
    c: nat,
    fuel: nat,
)
    requires
        0 <= si <= sols.len(),
        fuel >= 1,
    ensures
        continue_goals(db, Seq::empty(), sols, si, acc, c, fuel) == Some(
            (acc + sols.skip(si), c),
        ),
    decreases sols.len() - si,
{
    if si >= sols.len() {
        assert(acc + sols.skip(si) =~= acc);
    } else {
        let s = sols[si];
        assert(subst_goals(Seq::empty(), s) =~= Seq::<SpecTerm>::empty());
        assert(solve_goals(db, subst_goals(Seq::empty(), s), c, (fuel - 1) as nat) == Some(
            (seq![Seq::<SpecBinding>::empty()], c),
        ));
        assert(merge_into(s, seq![Seq::<SpecBinding>::empty()], 0) =~= seq![s]) by {
            assert(al_merge(s, Seq::<SpecBinding>::empty()) == Some(s));
            assert(merge_into(s, seq![Seq::<SpecBinding>::empty()], 1)
                =~= Seq::<SpecBindings>::empty());
        }
        lemma_continue_goals_done(db, sols, si + 1, acc + seq![s], c, fuel);
        assert((acc + seq![s]) + sols.skip(si + 1) =~= acc + sols.skip(si));
    }
}

/// Resolving a ground goal against a database of ground facts collects one
/// affirmative answer per clause whose head equals the goal, in clause
/// order; the fresh-name counter does not move.
proof fn lemma_expand_goal_ground_facts(
    db: Seq<SpecRule>,
    g: SpecTerm,
    ri: int,
    sols: Seq<SpecBindings>,
    c: nat,
    fuel: nat,
)
    requires
        is_ground_fact_db(db),
        is_ground(g),
        0 <= ri <= db.len(),
        fuel >= 1,
    ensures
        expand_goal(db, g, ri, sols, c, fuel) == Some((sols + fact_matches(db, g, ri), c)),
    decreases db.len() - ri,
{
    if ri >= db.len() {
        assert(sols + fact_matches(db, g, ri) =~= sols);
    } else {
        let rule = db[ri];
        assert(rule.body.len() == 0 && is_ground(rule.head));
        assert(rule_fvs(rule) =~= rule.head.free_vars()) by {
            assert(SpecTerm::free_vars_of_args(rule.body, 0, rule.head.free_vars())
                == rule.head.free_vars());
        }
        assert(rule.head.free_vars() =~= Seq::<Seq<char>>::empty()) by {
            lemma_free_vars_into_absorbed(rule.head, Seq::<Seq<char>>::empty());
        }
        assert(counter_plus(c, rule_fvs(rule).len()) == c);
        assert(fresh_pairs(rule_fvs(rule), c) =~= Seq::<SpecBinding>::empty());
        assert(fresh_sub(rule, c) == Seq::<SpecBinding>::empty());
        assert(renamed_head(rule, c) == rule.head);
        lemma_unify_ground_soundness(g, rule.head);
        if g == rule.head {
            assert(unify_outcome(g, renamed_head(rule, c)) == Some(Seq::<SpecBinding>::empty()));
            let ha = Seq::<SpecBinding>::empty();
            assert(renamed_body(rule, c) =~= Seq::<SpecTerm>::empty());
            assert(rev_subst_goals(renamed_body(rule, c), ha) =~= Seq::<SpecTerm>::empty());
            assert(solve_goals(db, rev_subst_goals(renamed_body(rule, c), ha), c, (fuel - 1) as nat)
                == Some((seq![Seq::<SpecBinding>::empty()], c)));
            assert(merge_into(ha, seq![Seq::<SpecBinding>::empty()], 0)
                =~= seq![Seq::<SpecBinding>::empty()]) by {
                assert(al_merge(ha, Seq::<SpecBinding>::empty()) == Some(ha));
                assert(merge_into(ha, seq![Seq::<SpecBinding>::empty()], 1)
                    =~= Seq::<SpecBindings>::empty());
            }
            lemma_expand_goal_ground_facts(
                db,
                g,
                ri + 1,
                sols + seq![Seq::<SpecBinding>::empty()],
                c,
                fuel,
            );
            assert((sols + seq![Seq::<SpecBinding>::empty()]) + fact_matches(db, g, ri + 1)
                =~= sols + fact_matches(db, g, ri));
        } else {
            assert(unify_outcome(g, renamed_head(rule, c)) is None);
            lemma_expand_goal_ground_facts(db, g, ri + 1, sols, c, fuel);
        }
    }
}

/// On a database of facts without variables, a query without variables is
/// answered affirmatively once for each clause whose head equals it, in
/// clause order, with nothing bound: the answers come only from matching
/// clauses, and permuting the clauses permutes nothing but their order.
pub proof fn lemma_prove_ground_facts(db: Seq<SpecRule>, g: SpecTerm)
    requires
        is_ground_fact_db(db),
        is_ground(g),
    ensures
        prove_spec(db, g) == fact_matches(db, g, 0),
{
    let goals = seq![g];
    assert(goals.last() == g);
    assert(goals.drop_last() =~= Seq::<SpecTerm>::empty());
    lemma_expand_goal_ground_facts(db, g, 0, Seq::empty(), 0, step_budget());
    assert(Seq::<SpecBindings>::empty() + fact_matches(db, g, 0) =~= fact_matches(db, g, 0));
    lemma_continue_goals_done(db, fact_matches(db, g, 0), 0, Seq::empty(), 0, step_budget());
    assert(Seq::<SpecBindings>::empty() + fact_matches(db, g, 0).skip(0)
        =~= fact_matches(db, g, 0));
    assert(solve_goals(db, goals, 0, step_budget()) == Some((fact_matches(db, g, 0), 0nat)));
    lemma_fact_matches_empty(db, g, 0);
    assert forall|i: int| 0 <= i < fact_matches(db, g, 0).len() implies normalized_spec(
        fact_matches(db, g, 0)[i],
        g.free_vars(),
        0,
        Seq::empty(),
    ) == fact_matches(db, g, 0)[i] by {
        lemma_normalized_of_no_bindings(g.free_vars(), 0, Seq::empty());
    }
    assert(prove_spec(db, g) =~= fact_matches(db, g, 0));
}

} // verus!
