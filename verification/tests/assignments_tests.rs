use minpl::assignments::Assignments;
use minpl::term::Term;

#[test]
fn get_normalized_scoped_variables() {
    let assignments = Assignments::empty()
        .with("X", Term::variable("Y"))
        .with("Y", Term::atom("a"));

    let normalized = assignments.normalized(&vec![String::from("X")]);

    assert_eq!(normalized, Assignments::empty().with("X", Term::atom("a")));
}

#[test]
fn get_normalized_scoped_variables_inside_functor() {
    let assignments = Assignments::empty()
        .with(
            "X",
            Term::functor("test", vec![Term::atom("a"), Term::variable("Y")]),
        )
        .with("Y", Term::atom("b"));

    let normalized = assignments.normalized(&vec![String::from("X")]);

    assert_eq!(
        normalized,
        Assignments::empty().with(
            "X",
            Term::functor("test", vec![Term::atom("a"), Term::atom("b")])
        )
    );
}

#[test]
fn normalized_drops_unbound_scope_variables() {
    let assignments = Assignments::empty().with("X", Term::atom("a"));

    let normalized = assignments.normalized(&vec![String::from("X"), String::from("Z")]);

    assert_eq!(normalized, Assignments::empty().with("X", Term::atom("a")));
}

#[test]
fn merge_of_disjoint_assignments_holds_both() {
    let left = Assignments::empty().with("X", Term::atom("a"));
    let right = Assignments::empty().with("Y", Term::atom("b"));

    let merged = left.merge(right);

    assert_eq!(
        merged,
        Some(
            Assignments::empty()
                .with("X", Term::atom("a"))
                .with("Y", Term::atom("b"))
        )
    );
}

#[test]
fn merge_of_disjoint_assignments_commutes() {
    let forward = Assignments::empty()
        .with("X", Term::atom("a"))
        .merge(Assignments::empty().with("Y", Term::atom("b")));
    let backward = Assignments::empty()
        .with("Y", Term::atom("b"))
        .merge(Assignments::empty().with("X", Term::atom("a")));

    assert_eq!(forward, backward);
}

#[test]
fn merge_collapses_equal_bindings() {
    let left = Assignments::empty().with("X", Term::atom("a"));
    let right = Assignments::empty().with("X", Term::atom("a"));

    let merged = left.merge(right);

    assert_eq!(merged, Some(Assignments::empty().with("X", Term::atom("a"))));
}

#[test]
fn merge_fails_on_conflicting_bindings() {
    let left = Assignments::empty().with("X", Term::atom("a"));
    let right = Assignments::empty().with("X", Term::atom("b"));

    let merged = left.merge(right);

    assert_eq!(merged, None);
}

#[test]
fn add_replaces_earlier_binding() {
    let mut assignments = Assignments::empty();
    assignments.add("X", Term::atom("a"));
    assignments.add("X", Term::atom("b"));

    assert_eq!(assignments, Assignments::empty().with("X", Term::atom("b")));
}

#[test]
fn is_empty_reports_bindings() {
    assert!(Assignments::empty().is_empty());
    assert!(!Assignments::empty().with("X", Term::atom("a")).is_empty());
}

#[test]
fn normalize_term_resolves_chains() {
    let assignments = Assignments::empty()
        .with("X", Term::variable("Y"))
        .with("Y", Term::variable("Z"))
        .with("Z", Term::atom("a"));

    let normalized = assignments.normalize_term(&Term::functor("f", vec![Term::variable("X")]));

    assert_eq!(normalized, Term::functor("f", vec![Term::atom("a")]));
}

#[test]
fn normalized_is_idempotent_on_chains() {
    let assignments = Assignments::empty()
        .with("X", Term::variable("Y"))
        .with("Y", Term::atom("a"));
    let scope = vec![String::from("X"), String::from("Y")];

    let once = assignments.normalized(&scope);
    let again = once.duplicate().normalized(&scope);

    assert_eq!(once, again);
}

#[test]
fn assignments_print_between_brackets() {
    let assignments = Assignments::empty()
        .with("X", Term::atom("a"))
        .with("Y", Term::functor("f", vec![Term::atom("b")]));

    assert_eq!(assignments.to_text(), String::from("[X := a, Y := f(b)]"));
}

#[test]
fn substitute_all_applies_bindings_in_order() {
    let assignments = Assignments::empty()
        .with("X", Term::atom("a"))
        .with("Y", Term::atom("b"));
    let term = Term::functor("f", vec![Term::variable("X"), Term::variable("Y")]);

    let substituted = term.substitute_all(&assignments);

    assert_eq!(
        substituted,
        Term::functor("f", vec![Term::atom("a"), Term::atom("b")])
    );
}
