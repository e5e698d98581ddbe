use minpl::database::Database;
use minpl::parser::MinplParser;
use minpl::term::Term;

#[test]
fn parse_variable() {
    let code = "X";

    let term = MinplParser::parse_term(code).unwrap();

    assert_eq!(term, Term::variable("X"));
}

#[test]
fn parse_variable_with_long_name() {
    let code = "Test";

    let term = MinplParser::parse_term(code).unwrap();

    assert_eq!(term, Term::variable("Test"));
}

#[test]
fn parse_atom() {
    let code = "a";

    let term = MinplParser::parse_term(code).unwrap();

    assert_eq!(term, Term::atom("a"));
}

#[test]
fn parse_atom_with_long_same() {
    let code = "aTest";

    let term = MinplParser::parse_term(code).unwrap();

    assert_eq!(term, Term::atom("aTest"));
}

#[test]
fn parse_functor() {
    let code = "test(a , X)";

    let term = MinplParser::parse_term(code).unwrap();

    assert_eq!(
        term,
        Term::functor("test", vec![Term::atom("a"), Term::variable("X")])
    );
}

#[test]
fn parse_complex_term() {
    let code = "test(aPredicate(atom, Y, other(X, b)), X)";

    let term = MinplParser::parse_term(code).unwrap();

    assert_eq!(
        term,
        Term::functor(
            "test",
            vec![
                Term::functor(
                    "aPredicate",
                    vec![
                        Term::atom("atom"),
                        Term::variable("Y"),
                        Term::functor("other", vec![Term::variable("X"), Term::atom("b")])
                    ]
                ),
                Term::variable("X"),
            ]
        )
    );
}

#[test]
fn parse_database() {
    let code =
        "father(peter, john). father(peter, adam). brother(X, Y) :- father(Z, X), father(Z, Y).";

    let database = MinplParser::parse_database(code).unwrap();

    let expected_database = Database::empty()
        .with_fact(Term::functor(
            "father",
            vec![Term::atom("peter"), Term::atom("john")],
        ))
        .with_fact(Term::functor(
            "father",
            vec![Term::atom("peter"), Term::atom("adam")],
        ))
        .with_rule(
            Term::functor("brother", vec![Term::variable("X"), Term::variable("Y")]),
            vec![
                Term::functor("father", vec![Term::variable("Z"), Term::variable("X")]),
                Term::functor("father", vec![Term::variable("Z"), Term::variable("Y")]),
            ],
        );

    assert_eq!(expected_database, database);
}

#[test]
fn parse_query() {
    let code = "brother(john, X).";

    let query = MinplParser::parse_query(code).unwrap();

    let expected_query = Term::functor("brother", vec![Term::atom("john"), Term::variable("X")]);
    assert_eq!(expected_query, query);
}

#[test]
fn reject_query_without_period() {
    assert_eq!(MinplParser::parse_query("brother(john, X)"), None);
}

#[test]
fn reject_query_with_leading_digit() {
    assert_eq!(MinplParser::parse_query("1fact."), None);
}

#[test]
fn reject_underscore_identifier() {
    assert_eq!(MinplParser::parse_query("_hidden."), None);
}

#[test]
fn reject_unclosed_argument_list() {
    assert_eq!(MinplParser::parse_database("f(a). g("), None);
}

#[test]
fn reject_empty_argument_list() {
    assert_eq!(MinplParser::parse_term("f()"), None);
}

#[test]
fn parse_database_of_nothing_is_empty() {
    let database = MinplParser::parse_database("  ").unwrap();
    assert_eq!(database, Database::empty());
}

#[test]
fn parse_rule_prints_back() {
    let code = "brother(X, Y) :- father(Z, X), father(Z, Y).";
    let database = MinplParser::parse_database(code).unwrap();
    let rule = &database.rules()[0];
    assert_eq!(
        rule.to_text(),
        String::from("brother(X, Y) :- father(Z, X), father(Z, Y)")
    );
}
