use minpl::assignments::Assignments;
use minpl::parser::MinplParser;
use minpl::proof_search::prove;
use minpl::term::Term;

#[test]
fn ground_query_on_matching_fact_is_true() {
    let database = MinplParser::parse_database("f(a).").unwrap();
    let query = MinplParser::parse_query("f(a).").unwrap();

    let result = prove(&database, query);

    assert_eq!(result, vec![Assignments::empty()]);
}

#[test]
fn ground_query_on_mismatched_fact_is_false() {
    let database = MinplParser::parse_database("f(a).").unwrap();
    let query = MinplParser::parse_query("f(b).").unwrap();

    let result = prove(&database, query);

    assert_eq!(result, vec![]);
}

#[test]
fn variable_query_binds_to_fact() {
    let database = MinplParser::parse_database("f(a).").unwrap();
    let query = MinplParser::parse_query("f(X).").unwrap();

    let result = prove(&database, query);

    assert_eq!(result, vec![Assignments::empty().with("X", Term::atom("a"))]);
}

#[test]
fn variable_fact_matches_ground_query() {
    let database = MinplParser::parse_database("f(X).").unwrap();
    let query = MinplParser::parse_query("f(a).").unwrap();

    let result = prove(&database, query);

    assert_eq!(result, vec![Assignments::empty()]);
}

#[test]
fn brother_rule_enumerates_solutions_in_clause_order() {
    let database = MinplParser::parse_database(
        "father(peter, john). father(peter, adam). brother(X, Y) :- father(Z, X), father(Z, Y).",
    )
    .unwrap();
    let query = MinplParser::parse_query("brother(john, X).").unwrap();

    let result = prove(&database, query);

    assert_eq!(
        result,
        vec![
            Assignments::empty().with("X", Term::atom("john")),
            Assignments::empty().with("X", Term::atom("adam")),
        ]
    );
}

#[test]
fn swapping_facts_swaps_the_answers() {
    let first = MinplParser::parse_database("color(red). color(blue).").unwrap();
    let second = MinplParser::parse_database("color(blue). color(red).").unwrap();
    let query_text = "color(X).";

    let first_answers = prove(&first, MinplParser::parse_query(query_text).unwrap());
    let second_answers = prove(&second, MinplParser::parse_query(query_text).unwrap());

    assert_eq!(
        first_answers,
        vec![
            Assignments::empty().with("X", Term::atom("red")),
            Assignments::empty().with("X", Term::atom("blue")),
        ]
    );
    assert_eq!(
        second_answers,
        vec![
            Assignments::empty().with("X", Term::atom("blue")),
            Assignments::empty().with("X", Term::atom("red")),
        ]
    );
}
