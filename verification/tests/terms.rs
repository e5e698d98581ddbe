use minpl::term::Term;

#[test]
fn build_term() {
    let term = Term::functor("father", vec![Term::atom("a"), Term::variable("X")]);

    assert_eq!(
        term,
        Term::Functor {
            name: String::from("father"),
            arguments: vec![
                Term::Functor {
                    name: String::from("a"),
                    arguments: vec![]
                },
                Term::Variable {
                    name: String::from("X")
                },
            ]
        }
    )
}

#[test]
fn substitute_variable() {
    let original_term = Term::variable("X");

    let subistituded = original_term.substitute("X", &Term::atom("a"));

    assert_eq!(subistituded, Term::atom("a"));
}

#[test]
fn do_not_substitute_different_variable() {
    let original_term = Term::variable("Y");

    let subistituded = original_term.substitute("X", &Term::atom("a"));

    assert_eq!(subistituded, Term::variable("Y"));
}

#[test]
fn do_not_substitute_atom() {
    let original_term = Term::atom("b");

    let subistituded = original_term.substitute("X", &Term::atom("a"));

    assert_eq!(subistituded, Term::atom("b"));
}

#[test]
fn substitute_fuctor_arguments() {
    let original_term = Term::functor(
        "test",
        vec![Term::atom("b"), Term::variable("X"), Term::variable("Y")],
    );

    let subistituded = original_term.substitute("X", &Term::atom("a"));

    let expected_term = Term::functor(
        "test",
        vec![Term::atom("b"), Term::atom("a"), Term::variable("Y")],
    );
    assert_eq!(subistituded, expected_term)
}

#[test]
fn free_variable_of_atom_is_empty() {
    let term = Term::atom("a");

    assert_eq!(term.free_variables(), Vec::<String>::new());
}

#[test]
fn free_variable_of_variable_is_variable() {
    let term = Term::variable("X");

    let expected_fvs = vec![String::from("X")];
    assert_eq!(term.free_variables(), expected_fvs);
}

#[test]
fn free_variable_of_functor_is_free_variable_of_arguments() {
    let term = Term::functor(
        "test",
        vec![Term::variable("X"), Term::atom("a"), Term::variable("Y")],
    );

    let expected_fvs = vec![String::from("X"), String::from("Y")];
    assert_eq!(term.free_variables(), expected_fvs);
}

#[test]
fn free_variable_of_complex_term() {
    let term = Term::functor(
        "test",
        vec![
            Term::functor("other", vec![Term::variable("X"), Term::atom("b")]),
            Term::atom("a"),
            Term::functor("thing", vec![Term::variable("Z")]),
        ],
    );

    let expected_fvs = vec![String::from("X"), String::from("Z")];
    assert_eq!(term.free_variables(), expected_fvs);
}

#[test]
fn free_variable_listed_once_in_first_position() {
    let term = Term::functor(
        "test",
        vec![Term::variable("Y"), Term::variable("X"), Term::variable("Y")],
    );

    let expected_fvs = vec![String::from("Y"), String::from("X")];
    assert_eq!(term.free_variables(), expected_fvs);
}

#[test]
fn atom_prints_as_name() {
    assert_eq!(Term::atom("water").to_text(), String::from("water"));
}

#[test]
fn functor_prints_with_arguments() {
    let term = Term::functor(
        "test",
        vec![
            Term::atom("a"),
            Term::variable("X"),
            Term::functor("inner", vec![Term::atom("b")]),
        ],
    );
    assert_eq!(term.to_text(), String::from("test(a, X, inner(b))"));
}

#[test]
fn substitution_keeps_other_variables_and_brings_in_the_replacement() {
    let term = Term::functor("pair", vec![Term::variable("X"), Term::variable("Y")]);
    let replacement = Term::functor("f", vec![Term::variable("Z")]);

    let substituted = term.substitute("X", &replacement);

    let expected_fvs = vec![String::from("Z"), String::from("Y")];
    assert_eq!(substituted.free_variables(), expected_fvs);
}
