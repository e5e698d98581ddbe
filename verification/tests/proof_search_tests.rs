use minpl::assignments::Assignments;
use minpl::database::Database;
use minpl::proof_search::prove;
use minpl::term::Term;

#[test]
fn proves_given_fact() {
    let database = Database::empty().with_fact(Term::functor("f", vec![Term::atom("a")]));

    let result = prove(&database, Term::functor("f", vec![Term::atom("a")]));

    assert_eq!(result, vec![Assignments::empty()]);
}

#[test]
fn proves_from_rule() {
    let database = Database::empty()
        .with_fact(Term::functor("f", vec![Term::atom("a")]))
        .with_rule(
            Term::functor("g", vec![Term::atom("a")]),
            vec![Term::functor("f", vec![Term::atom("a")])],
        );

    let result = prove(&database, Term::functor("g", vec![Term::atom("a")]));

    assert_eq!(result, vec![Assignments::empty()]);
}

#[test]
fn do_not_proves_if_does_not_follow_from_rules() {
    let database = Database::empty().with_rule(
        Term::functor("g", vec![Term::atom("a")]),
        vec![Term::functor("f", vec![Term::atom("a")])],
    );

    let result = prove(&database, Term::functor("g", vec![Term::atom("a")]));

    assert_eq!(result, vec![]);
}

#[test]
fn proves_from_rule_with_multiple_goals() {
    let database = Database::empty()
        .with_fact(Term::functor("f", vec![Term::atom("a")]))
        .with_fact(Term::functor("g", vec![Term::atom("a")]))
        .with_fact(Term::functor("h", vec![Term::atom("a")]))
        .with_fact(Term::functor("f", vec![Term::atom("b")]))
        .with_rule(
            Term::functor("k", vec![Term::atom("a")]),
            vec![
                Term::functor("f", vec![Term::atom("a")]),
                Term::functor("g", vec![Term::atom("a")]),
                Term::functor("h", vec![Term::atom("a")]),
            ],
        );

    let result = prove(&database, Term::functor("k", vec![Term::atom("a")]));

    assert_eq!(result, vec![Assignments::empty()]);
}

#[test]
fn do_not_proves_from_rule_with_multiple_goals_if_some_goal_are_false() {
    let database = Database::empty()
        .with_fact(Term::functor("f", vec![Term::atom("a")]))
        .with_fact(Term::functor("g", vec![Term::atom("a")]))
        .with_fact(Term::functor("h", vec![Term::atom("a")]))
        .with_fact(Term::functor("f", vec![Term::atom("b")]))
        .with_rule(
            Term::functor("k", vec![Term::atom("b")]),
            vec![
                Term::functor("f", vec![Term::atom("b")]),
                Term::functor("g", vec![Term::atom("b")]),
                Term::functor("h", vec![Term::atom("b")]),
            ],
        );

    let result = prove(&database, Term::functor("k", vec![Term::atom("b")]));

    assert_eq!(result, vec![]);
}

#[test]
fn proves_fact_with_variable() {
    let database = Database::empty().with_fact(Term::functor("test", vec![Term::variable("X")]));

    let result = prove(&database, Term::functor("test", vec![Term::atom("a")]));

    assert_eq!(result, vec![Assignments::empty()]);
}

#[test]
fn proves_goal_with_variable() {
    let database = Database::empty().with_fact(Term::functor("test", vec![Term::atom("a")]));

    let result = prove(&database, Term::functor("test", vec![Term::variable("X")]));

    assert_eq!(
        result,
        vec![Assignments::empty().with("X", Term::atom("a"))]
    );
}

#[test]
fn prove_goal_and_rule_with_same_variable_name() {
    let database = Database::empty()
        .with_fact(Term::functor("one", vec![Term::atom("a")]))
        .with_rule(
            Term::functor("test", vec![Term::variable("X"), Term::atom("b")]),
            vec![Term::functor("one", vec![Term::variable("X")])],
        );

    let result = prove(
        &database,
        Term::functor("test", vec![Term::atom("a"), Term::variable("X")]),
    );

    assert_eq!(
        result,
        vec![Assignments::empty().with("X", Term::atom("b"))]
    );
}

#[test]
fn enumerates_matching_facts_in_clause_order() {
    let database = Database::empty()
        .with_fact(Term::functor("color", vec![Term::atom("red")]))
        .with_fact(Term::functor("color", vec![Term::atom("green")]))
        .with_fact(Term::functor("color", vec![Term::atom("blue")]));

    let result = prove(&database, Term::functor("color", vec![Term::variable("X")]));

    assert_eq!(
        result,
        vec![
            Assignments::empty().with("X", Term::atom("red")),
            Assignments::empty().with("X", Term::atom("green")),
            Assignments::empty().with("X", Term::atom("blue")),
        ]
    );
}

#[test]
fn provider_names_do_not_leak_for_ground_queries() {
    let database = Database::empty().with_rule(
        Term::functor("g", vec![Term::variable("X")]),
        vec![Term::functor("f", vec![Term::variable("X")])],
    );
    let database = database.with_fact(Term::functor("f", vec![Term::atom("a")]));

    let result = prove(&database, Term::functor("g", vec![Term::atom("a")]));

    assert_eq!(result, vec![Assignments::empty()]);
}

#[test]
fn placeholder_names_are_sequential() {
    let mut provider = minpl::proof_search::TempProvider::default();
    assert_eq!(provider.get(), String::from("_1"));
    assert_eq!(provider.get(), String::from("_2"));
    assert_eq!(provider.get(), String::from("_3"));
}

#[test]
fn placeholder_names_carry_all_digits() {
    let mut provider = minpl::proof_search::TempProvider::default();
    let mut last = String::new();
    for _ in 0..12 {
        last = provider.get();
    }
    assert_eq!(last, String::from("_12"));
}
