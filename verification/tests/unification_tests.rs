use minpl::assignments::Assignments;
use minpl::term::Term;
use minpl::unification::{unify, UnifyResult};

#[test]
fn unify_equal_atoms() {
    let term_a = Term::atom("a");
    let term_b = Term::atom("a");

    assert_eq!(
        unify(term_a, term_b),
        UnifyResult::True(Assignments::empty())
    );
}

#[test]
fn do_not_unify_different_atoms() {
    let term_a = Term::atom("a");
    let term_b = Term::atom("b");

    assert_eq!(unify(term_a, term_b), UnifyResult::False);
}

#[test]
fn unify_variable_left_with_atom() {
    let var = Term::variable("X");
    let something = Term::atom("a");

    let expected_assignments = Assignments::empty().with("X", Term::atom("a"));
    assert_eq!(
        unify(var, something),
        UnifyResult::True(expected_assignments)
    );
}

#[test]
fn unify_variable_left_with_variable() {
    let var = Term::variable("X");
    let something = Term::variable("Y");

    let expected_assignments = Assignments::empty().with("X", Term::variable("Y"));
    assert_eq!(
        unify(var, something),
        UnifyResult::True(expected_assignments)
    );
}

#[test]
fn unify_variable_left_with_functor() {
    let var = Term::variable("X");
    let something = Term::functor("test", vec![Term::variable("Z"), Term::atom("k")]);
    let same = Term::functor("test", vec![Term::variable("Z"), Term::atom("k")]);

    let expected_assignments = Assignments::empty().with("X", same);
    assert_eq!(
        unify(var, something),
        UnifyResult::True(expected_assignments)
    );
}

#[test]
fn unify_variable_right_with_atom() {
    let var = Term::variable("X");
    let something = Term::atom("a");

    let expected_assignments = Assignments::empty().with("X", Term::atom("a"));
    assert_eq!(
        unify(something, var),
        UnifyResult::True(expected_assignments)
    );
}

#[test]
fn unify_variable_right_with_functor() {
    let var = Term::variable("X");
    let something = Term::functor("test", vec![Term::variable("Z"), Term::atom("k")]);
    let same = Term::functor("test", vec![Term::variable("Z"), Term::atom("k")]);

    let expected_assignments = Assignments::empty().with("X", same);
    assert_eq!(
        unify(something, var),
        UnifyResult::True(expected_assignments)
    );
}

#[test]
fn unify_functors() {
    let term_a = Term::functor("test", vec![Term::atom("a"), Term::atom("b")]);
    let term_b = Term::functor("test", vec![Term::atom("a"), Term::atom("b")]);

    assert_eq!(
        unify(term_a, term_b),
        UnifyResult::True(Assignments::empty())
    )
}

#[test]
fn do_not_unify_functors_with_different_names() {
    let term_a = Term::functor("test", vec![Term::atom("a"), Term::atom("b")]);
    let term_b = Term::functor("atest", vec![Term::atom("a"), Term::atom("b")]);

    assert_eq!(unify(term_a, term_b), UnifyResult::False,)
}

#[test]
fn do_not_unify_functors_with_different_arities() {
    let term_a = Term::functor("test", vec![Term::atom("a"), Term::atom("b")]);
    let term_b = Term::functor(
        "test",
        vec![Term::atom("a"), Term::atom("b"), Term::atom("c")],
    );

    assert_eq!(unify(term_a, term_b), UnifyResult::False,)
}

#[test]
fn unify_functors_with_variables() {
    let term_a = Term::functor("test", vec![Term::variable("X"), Term::atom("b")]);
    let term_b = Term::functor("test", vec![Term::atom("a"), Term::variable("Y")]);

    assert_eq!(
        unify(term_a, term_b),
        UnifyResult::True(
            Assignments::empty()
                .with("X", Term::atom("a"))
                .with("Y", Term::atom("b"))
        )
    )
}

#[test]
fn do_not_unify_functors_with_variables_with_incompatible_assignments() {
    let term_a = Term::functor("test", vec![Term::variable("X"), Term::atom("b")]);
    let term_b = Term::functor("test", vec![Term::atom("a"), Term::variable("X")]);

    assert_eq!(unify(term_a, term_b), UnifyResult::False)
}

#[test]
fn unify_complex_term() {
    let term_a = Term::functor(
        "vertical",
        vec![Term::functor(
            "line",
            vec![
                Term::functor("point", vec![Term::variable("X"), Term::variable("Y")]),
                Term::functor("point", vec![Term::variable("X"), Term::variable("Z")]),
            ],
        )],
    );

    let term_b = Term::functor(
        "vertical",
        vec![Term::functor(
            "line",
            vec![
                Term::functor("point", vec![Term::atom("1"), Term::atom("1")]),
                Term::functor("point", vec![Term::atom("1"), Term::atom("3")]),
            ],
        )],
    );

    assert_eq!(
        unify(term_a, term_b),
        UnifyResult::True(
            Assignments::empty()
                .with("X", Term::atom("1"))
                .with("Y", Term::atom("1"))
                .with("Z", Term::atom("3"))
        )
    )
}

#[test]
fn do_not_unify_complex_term() {
    let term_a = Term::functor(
        "vertical",
        vec![Term::functor(
            "line",
            vec![
                Term::functor("point", vec![Term::variable("X"), Term::variable("Y")]),
                Term::functor("point", vec![Term::variable("X"), Term::variable("Z")]),
            ],
        )],
    );

    let term_b = Term::functor(
        "vertical",
        vec![Term::functor(
            "line",
            vec![
                Term::functor("point", vec![Term::atom("1"), Term::atom("1")]),
                Term::functor("point", vec![Term::atom("2"), Term::atom("3")]),
            ],
        )],
    );

    assert_eq!(unify(term_a, term_b), UnifyResult::False)
}

#[test]
fn unify_complex_term_with_variables_on_both_sides() {
    let term_a = Term::functor(
        "vertical",
        vec![Term::functor(
            "line",
            vec![
                Term::functor("point", vec![Term::variable("X"), Term::variable("Y")]),
                Term::functor("point", vec![Term::variable("X"), Term::variable("Z")]),
            ],
        )],
    );

    let term_b = Term::functor(
        "vertical",
        vec![Term::functor(
            "line",
            vec![
                Term::functor("point", vec![Term::atom("1"), Term::variable("K")]),
                Term::functor("point", vec![Term::atom("1"), Term::atom("3")]),
            ],
        )],
    );

    assert_eq!(
        unify(term_a, term_b),
        UnifyResult::True(
            Assignments::empty()
                .with("X", Term::atom("1"))
                .with("Y", Term::variable("K"))
                .with("Z", Term::atom("3"))
        )
    )
}

#[test]
fn unify_terms_with_transitional_non_conflicting_assignments() {
    let term_a = Term::functor(
        "test",
        vec![
            Term::variable("X"),
            Term::variable("X"),
            Term::variable("Y"),
        ],
    );

    let term_b = Term::functor(
        "test",
        vec![Term::variable("Y"), Term::atom("a"), Term::atom("a")],
    );

    assert_eq!(
        unify(term_a, term_b),
        UnifyResult::True(
            Assignments::empty()
                .with("X", Term::variable("Y"))
                .with("Y", Term::atom("a"))
        )
    )
}

#[test]
fn do_not_unify_terms_with_transitional_conflicting_assignments() {
    let term_a = Term::functor(
        "test",
        vec![
            Term::variable("X"),
            Term::variable("X"),
            Term::variable("Y"),
        ],
    );

    let term_b = Term::functor(
        "test",
        vec![Term::variable("Y"), Term::atom("a"), Term::atom("b")],
    );

    assert_eq!(unify(term_a, term_b), UnifyResult::False)
}

#[test]
fn process_argumens_in_given_order() {
    let term_a = Term::functor("test", vec![Term::variable("X"), Term::variable("Y")]);
    let term_b = Term::functor("test", vec![Term::variable("Y"), Term::variable("X")]);

    assert_eq!(
        unify(term_a, term_b),
        UnifyResult::True(Assignments::empty().with("X", Term::variable("Y")))
    )
}

#[test]
fn unification_chain_normalizes() {
    let term_a = Term::functor(
        "test",
        vec![
            Term::variable("X"),
            Term::variable("X"),
            Term::variable("Y"),
        ],
    );
    let term_b = Term::functor(
        "test",
        vec![Term::variable("Y"), Term::atom("a"), Term::atom("a")],
    );

    match unify(term_a, term_b) {
        UnifyResult::True(assignments) => {
            let scope = vec![String::from("X"), String::from("Y")];
            let normalized = assignments.normalized(&scope);
            assert_eq!(
                normalized,
                Assignments::empty()
                    .with("X", Term::atom("a"))
                    .with("Y", Term::atom("a"))
            );
        }
        UnifyResult::False => panic!("expected a unifier"),
    }
}

#[test]
fn unifier_makes_both_sides_equal_after_normalization() {
    let term_a = Term::functor("test", vec![Term::variable("X"), Term::atom("b")]);
    let term_b = Term::functor("test", vec![Term::atom("a"), Term::variable("Y")]);
    let again_a = Term::functor("test", vec![Term::variable("X"), Term::atom("b")]);
    let again_b = Term::functor("test", vec![Term::atom("a"), Term::variable("Y")]);

    match unify(term_a, term_b) {
        UnifyResult::True(assignments) => {
            let lhs = assignments.normalize_term(&again_a.substitute_all(&assignments));
            let rhs = assignments.normalize_term(&again_b.substitute_all(&assignments));
            assert_eq!(lhs, rhs);
        }
        UnifyResult::False => panic!("expected a unifier"),
    }
}

#[test]
fn unify_succeeds_in_both_directions() {
    let term_a = Term::functor("test", vec![Term::variable("X"), Term::atom("b")]);
    let term_b = Term::functor("test", vec![Term::atom("a"), Term::variable("Y")]);
    let again_a = Term::functor("test", vec![Term::variable("X"), Term::atom("b")]);
    let again_b = Term::functor("test", vec![Term::atom("a"), Term::variable("Y")]);

    let forward = unify(term_a, term_b);
    let backward = unify(again_b, again_a);
    assert!(matches!(forward, UnifyResult::True(_)));
    assert!(matches!(backward, UnifyResult::True(_)));
}
