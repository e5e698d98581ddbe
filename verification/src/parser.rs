use vstd::prelude::*;

use crate::database::{Database, SpecRule};
use crate::term::{SpecTerm, Term};

verus! {

/// A letter of the identifier alphabet.
pub open spec fn is_letter(c: char) -> bool {
    ('a' as u32 <= c as u32 && c as u32 <= 'z' as u32) || ('A' as u32 <= c as u32 && c as u32
        <= 'Z' as u32)
}

/// An upper-case letter: the first character of a variable name.
pub open spec fn is_upper(c: char) -> bool {
    'A' as u32 <= c as u32 && c as u32 <= 'Z' as u32
}

/// A decimal digit.
pub open spec fn is_digit(c: char) -> bool {
    '0' as u32 <= c as u32 && c as u32 <= '9' as u32
}

/// A character that may continue an identifier.
pub open spec fn is_ident_char(c: char) -> bool {
    is_letter(c) || is_digit(c)
}

/// Whitespace between tokens.
pub open spec fn is_space(c: char) -> bool {
    c == ' ' || c == '\t' || c == '\n' || c == '\r'
}

/// The first position at or after `i` holding no whitespace.
pub open spec fn skip_ws_spec(s: Seq<char>, i: int) -> int
    decreases s.len() - i,
{
    if 0 <= i < s.len() && is_space(s[i]) {
        skip_ws_spec(s, i + 1)
    } else {
        i
    }
}

/// The end of the identifier-character run starting at `i`.
pub open spec fn ident_end(s: Seq<char>, i: int) -> int
    decreases s.len() - i,
{
    if 0 <= i < s.len() && is_ident_char(s[i]) {
        ident_end(s, i + 1)
    } else {
        i
    }
}

/// The identifier scan stays within the input and moves only forward.
pub proof fn lemma_ident_end_bounds(s: Seq<char>, i: int)
    requires
        0 <= i <= s.len(),
    ensures
        i <= ident_end(s, i) <= s.len(),
    decreases s.len() - i,
{
    if i < s.len() && is_ident_char(s[i]) {
        lemma_ident_end_bounds(s, i + 1);
    }
}

/// `j` when it lies beyond `i` and within the input, else the nearest
/// position that does; the parsing functions below use it only so that their
/// termination is evident, and their positions always move forward within the
/// input, so it never changes what is parsed.
pub open spec fn adv(s: Seq<char>, i: int, j: int) -> int {
    if i < j && j <= s.len() {
        j
    } else if i + 1 <= s.len() {
        i + 1
    } else {
        s.len() as int
    }
}

/// A term starting exactly at `i`: an upper-case-initial identifier is a
/// variable; a lower-case-initial identifier is an atom, or a functor when a
/// parenthesised argument list follows at once.
pub open spec fn parse_term_spec(s: Seq<char>, i: int) -> Option<(SpecTerm, int)>
    decreases s.len() - i, 0int,
{
    if !(0 <= i < s.len() && is_letter(s[i])) {
        None
    } else {
        let j = ident_end(s, i);
        let name = s.subrange(i, j);
        if is_upper(s[i]) {
            Some((SpecTerm::Var { name }, j))
        } else if j < s.len() && s[j] == '(' {
            match parse_args_spec(s, adv(s, i, skip_ws_spec(s, j + 1))) {
                None => None,
                Some((args, e)) => Some((SpecTerm::App { name, args }, e)),
            }
        } else {
            Some((SpecTerm::App { name, args: Seq::empty() }, j))
        }
    }
}

/// One or more comma-separated terms followed by a closing parenthesis;
/// yields the arguments and the position after the parenthesis.
pub open spec fn parse_args_spec(s: Seq<char>, i: int) -> Option<(Seq<SpecTerm>, int)>
    decreases s.len() - i, 1int,
{
    if !(0 <= i < s.len()) {
        None
    } else {
    match parse_term_spec(s, i) {
        None => None,
        Some((t, j)) => {
            let k = skip_ws_spec(s, j);
            if k < s.len() && s[k] == ',' {
                match parse_args_spec(s, adv(s, i, skip_ws_spec(s, k + 1))) {
                    None => None,
                    Some((ts, e)) => Some((seq![t] + ts, e)),
                }
            } else if k < s.len() && s[k] == ')' {
                Some((seq![t], k + 1))
            } else {
                None
            }
        },
    }
    }
}

/// One or more comma-separated goals followed by the closing period; yields
/// the goals and the position after the period.
pub open spec fn parse_body_spec(s: Seq<char>, i: int) -> Option<(Seq<SpecTerm>, int)>
    decreases s.len() - i, 2int,
{
    if !(0 <= i < s.len()) {
        None
    } else {
    match parse_term_spec(s, i) {
        None => None,
        Some((t, j)) => {
            let k = skip_ws_spec(s, j);
            if k < s.len() && s[k] == ',' {
                match parse_body_spec(s, adv(s, i, skip_ws_spec(s, k + 1))) {
                    None => None,
                    Some((ts, e)) => Some((seq![t] + ts, e)),
                }
            } else if k < s.len() && s[k] == '.' {
                Some((seq![t], k + 1))
            } else {
                None
            }
        },
    }
    }
}

/// A clause starting at `i`: `head.` for a fact, or `head :- g1, …, gn.` for
/// a rule; yields the clause and the position after the period.
pub open spec fn parse_clause_spec(s: Seq<char>, i: int) -> Option<(SpecRule, int)>
    decreases s.len() - i, 3int,
{
    if !(0 <= i < s.len()) {
        None
    } else {
    match parse_term_spec(s, i) {
        None => None,
        Some((h, j)) => {
            let k = skip_ws_spec(s, j);
            if k < s.len() && s[k] == '.' {
                Some((SpecRule { head: h, body: Seq::empty() }, k + 1))
            } else if k + 1 < s.len() && s[k] == ':' && s[k + 1] == '-' {
                match parse_body_spec(s, adv(s, i, skip_ws_spec(s, k + 2))) {
                    None => None,
                    Some((body, e)) => Some((SpecRule { head: h, body }, e)),
                }
            } else {
                None
            }
        },
    }
    }
}

/// The clauses from `i` to the end of the input, whitespace between them.
pub open spec fn parse_database_at(s: Seq<char>, i: int) -> Option<Seq<SpecRule>>
    decreases s.len() - i, 4int,
{
    if i >= s.len() {
        Some(Seq::empty())
    } else {
        match parse_clause_spec(s, i) {
            None => None,
            Some((r, j)) => match parse_database_at(s, adv(s, i, skip_ws_spec(s, j))) {
                None => None,
                Some(rest) => Some(seq![r] + rest),
            },
        }
    }
}

/// A whole database: clauses separated by whitespace, nothing else.
pub open spec fn parse_database_spec(s: Seq<char>) -> Option<Seq<SpecRule>> {
    parse_database_at(s, skip_ws_spec(s, 0))
}

/// A whole query: one term, a period, nothing else but whitespace.
pub open spec fn parse_query_spec(s: Seq<char>) -> Option<SpecTerm> {
    match parse_term_spec(s, skip_ws_spec(s, 0)) {
        None => None,
        Some((t, j)) => {
            let k = skip_ws_spec(s, j);
            if k < s.len() && s[k] == '.' && skip_ws_spec(s, k + 1) == s.len() {
                Some(t)
            } else {
                None
            }
        },
    }
}

/// A whole term: one term and nothing else but whitespace.
pub open spec fn parse_term_only_spec(s: Seq<char>) -> Option<SpecTerm> {
    match parse_term_spec(s, skip_ws_spec(s, 0)) {
        None => None,
        Some((t, j)) => {
            if skip_ws_spec(s, j) == s.len() {
                Some(t)
            } else {
                None
            }
        },
    }
}

/// Whether the character is whitespace.
fn space_char(c: char) -> (r: bool)
    ensures
        r == is_space(c),
{
    c == ' ' || c == '\t' || c == '\n' || c == '\r'
}

/// Whether the character may continue an identifier.
fn ident_char(c: char) -> (r: bool)
    ensures
        r == is_ident_char(c),
{
    let u = c as u32;
    (97 <= u && u <= 122) || (65 <= u && u <= 90) || (48 <= u && u <= 57)
}

/// Skip whitespace from `i`.
#[verifier::loop_isolation(false)]
fn skip_ws(s: &str, i: usize) -> (r: usize)
    requires
        i <= s@.len(),
    ensures
        r as int == skip_ws_spec(s@, i as int),
        i <= r <= s@.len(),
{
    let n = s.unicode_len();
    let mut r = i;
    while r < n && space_char(s.get_char(r))
        invariant
            i <= r <= n,
            n == s@.len(),
            skip_ws_spec(s@, r as int) == skip_ws_spec(s@, i as int),
        decreases n - r,
    {
        r += 1;
    }
    r
}

/// The end of the identifier-character run from `i`.
#[verifier::loop_isolation(false)]
fn scan_ident(s: &str, i: usize) -> (r: usize)
    requires
        i <= s@.len(),
    ensures
        r as int == ident_end(s@, i as int),
        i <= r <= s@.len(),
{
    let n = s.unicode_len();
    let mut r = i;
    while r < n && ident_char(s.get_char(r))
        invariant
            i <= r <= n,
            n == s@.len(),
            ident_end(s@, r as int) == ident_end(s@, i as int),
        decreases n - r,
    {
        r += 1;
    }
    r
}

/// A term starting exactly at `i`.
#[verifier::loop_isolation(false)]
fn parse_term_at(s: &str, i: usize) -> (r: Option<(Term, usize)>)
    requires
        i <= s@.len(),
    ensures
        match r {
            Some((t, j)) => parse_term_spec(s@, i as int) == Some((t@, j as int)) && i < j
                <= s@.len(),
            None => parse_term_spec(s@, i as int) is None,
        },
    decreases s@.len() - i, 0int,
{
    let n = s.unicode_len();
    if i >= n {
        return None;
    }
    let c = s.get_char(i);
    let u = c as u32;
    if !((97 <= u && u <= 122) || (65 <= u && u <= 90)) {
        return None;
    }
    let j = scan_ident(s, i);
    proof {
        lemma_ident_end_bounds(s@, i + 1);
        assert(ident_end(s@, i as int) == ident_end(s@, i + 1));
        assert(j >= i + 1);
    }
    let name = s.substring_char(i, j).to_owned();
    proof {
        assert(name@ == s@.subrange(i as int, j as int));
    }
    if 65 <= u && u <= 90 {
        Some((Term::Variable { name }, j))
    } else if j < n && s.get_char(j) == '(' {
        let p = skip_ws(s, j + 1);
        proof {
            assert(adv(s@, i as int, skip_ws_spec(s@, j + 1)) == p as int);
        }
        match parse_args(s, p) {
            None => None,
            Some((args, e)) => {
                let t = Term::Functor { name, arguments: args };
                proof {
                    assert(t@->App_args =~= t->Functor_arguments.deep_view());
                }
                Some((t, e))
            },
        }
    } else {
        let t = Term::Functor { name, arguments: Vec::new() };
        proof {
            assert(t@->App_args =~= Seq::<SpecTerm>::empty());
        }
        Some((t, j))
    }
}

/// One or more comma-separated terms and the closing parenthesis.
#[verifier::loop_isolation(false)]
fn parse_args(s: &str, i: usize) -> (r: Option<(Vec<Term>, usize)>)
    requires
        i <= s@.len(),
    ensures
        match r {
            Some((ts, j)) => parse_args_spec(s@, i as int) == Some((ts.deep_view(), j as int))
                && i < j <= s@.len(),
            None => parse_args_spec(s@, i as int) is None,
        },
    decreases s@.len() - i, 1int,
{
    let n = s.unicode_len();
    match parse_term_at(s, i) {
        None => None,
        Some((t, j)) => {
            let k = skip_ws(s, j);
            if k < n && s.get_char(k) == ',' {
                let p = skip_ws(s, k + 1);
                proof {
                    assert(adv(s@, i as int, skip_ws_spec(s@, k + 1)) == p as int);
                }
                match parse_args(s, p) {
                    None => None,
                    Some((ts, e)) => {
                        let mut out: Vec<Term> = Vec::new();
                        out.push(t);
                        let ghost t_spec = out@[0]@;
                        let mut ts = ts;
                        let ghost ts_spec = ts.deep_view();
                        let mut q: usize = 0;
                        while q < ts.len()
                            invariant
                                0 <= q <= ts@.len(),
                                ts.deep_view() == ts_spec,
                                ts@.len() == ts_spec.len(),
                                out@.len() == q + 1,
                                out@[0]@ == t_spec,
                                forall|w: int| 0 <= w < q ==> out@[w + 1]@ == ts_spec[w],
                            decreases ts@.len() - q,
                        {
                            let item = ts[q].duplicate();
                            out.push(item);
                            q += 1;
                        }
                        proof {
                            assert(out.deep_view() =~= seq![t_spec] + ts_spec);
                        }
                        Some((out, e))
                    },
                }
            } else if k < n && s.get_char(k) == ')' {
                let mut out: Vec<Term> = Vec::new();
                out.push(t);
                proof {
                    assert(out.deep_view() =~= seq![out@[0]@]);
                }
                Some((out, k + 1))
            } else {
                None
            }
        },
    }
}

/// One or more comma-separated goals and the closing period.
#[verifier::loop_isolation(false)]
fn parse_body(s: &str, i: usize) -> (r: Option<(Vec<Term>, usize)>)
    requires
        i <= s@.len(),
    ensures
        match r {
            Some((ts, j)) => parse_body_spec(s@, i as int) == Some((ts.deep_view(), j as int))
                && i < j <= s@.len(),
            None => parse_body_spec(s@, i as int) is None,
        },
    decreases s@.len() - i, 2int,
{
    let n = s.unicode_len();
    match parse_term_at(s, i) {
        None => None,
        Some((t, j)) => {
            let k = skip_ws(s, j);
            if k < n && s.get_char(k) == ',' {
                let p = skip_ws(s, k + 1);
                proof {
                    assert(adv(s@, i as int, skip_ws_spec(s@, k + 1)) == p as int);
                }
                match parse_body(s, p) {
                    None => None,
                    Some((ts, e)) => {
                        let mut out: Vec<Term> = Vec::new();
                        out.push(t);
                        let ghost t_spec = out@[0]@;
                        let mut ts = ts;
                        let ghost ts_spec = ts.deep_view();
                        let mut q: usize = 0;
                        while q < ts.len()
                            invariant
                                0 <= q <= ts@.len(),
                                ts.deep_view() == ts_spec,
                                ts@.len() == ts_spec.len(),
                                out@.len() == q + 1,
                                out@[0]@ == t_spec,
                                forall|w: int| 0 <= w < q ==> out@[w + 1]@ == ts_spec[w],
                            decreases ts@.len() - q,
                        {
                            let item = ts[q].duplicate();
                            out.push(item);
                            q += 1;
                        }
                        proof {
                            assert(out.deep_view() =~= seq![t_spec] + ts_spec);
                        }
                        Some((out, e))
                    },
                }
            } else if k < n && s.get_char(k) == '.' {
                let mut out: Vec<Term> = Vec::new();
                out.push(t);
                proof {
                    assert(out.deep_view() =~= seq![out@[0]@]);
                }
                Some((out, k + 1))
            } else {
                None
            }
        },
    }
}

/// A clause starting at `i`.
#[verifier::loop_isolation(false)]
fn parse_clause(s: &str, i: usize) -> (r: Option<(Term, Vec<Term>, usize)>)
    requires
        i <= s@.len(),
    ensures
        match r {
            Some((h, b, j)) => parse_clause_spec(s@, i as int) == Some(
                (SpecRule { head: h@, body: b.deep_view() }, j as int),
            ) && i < j <= s@.len(),
            None => parse_clause_spec(s@, i as int) is None,
        },
    decreases s@.len() - i, 3int,
{
    let n = s.unicode_len();
    match parse_term_at(s, i) {
        None => None,
        Some((h, j)) => {
            let k = skip_ws(s, j);
            if k < n && s.get_char(k) == '.' {
                let body: Vec<Term> = Vec::new();
                proof {
                    assert(body.deep_view() =~= Seq::<SpecTerm>::empty());
                }
                Some((h, body, k + 1))
            } else if k < n && k + 1 < n && s.get_char(k) == ':' && s.get_char(k + 1) == '-' {
                let p = skip_ws(s, k + 2);
                proof {
                    assert(adv(s@, i as int, skip_ws_spec(s@, k + 2)) == p as int);
                }
                match parse_body(s, p) {
                    None => None,
                    Some((body, e)) => Some((h, body, e)),
                }
            } else {
                None
            }
        },
    }
}

/// The textual front of the engine: builds terms and databases from the
/// concrete syntax. Identifiers are `[A-Za-z][A-Za-z0-9]*`; an upper-case
/// initial makes a variable; the underscore is reserved for placeholder
/// names.
#[derive(Debug)]
pub struct MinplParser;

impl MinplParser {
    /// Parse a query: one term closed by a period.
    pub fn parse_query(code: &str) -> (r: Option<Term>)
        ensures
            match r {
                Some(t) => parse_query_spec(code@) == Some(t@),
                None => parse_query_spec(code@) is None,
            },
    {
        let n = code.unicode_len();
        let start = skip_ws(code, 0);
        match parse_term_at(code, start) {
            None => None,
            Some((t, j)) => {
                let k = skip_ws(code, j);
                if k < n && code.get_char(k) == '.' && skip_ws(code, k + 1) == n {
                    Some(t)
                } else {
                    None
                }
            },
        }
    }

    /// Parse a database: a sequence of clauses separated by whitespace.
    #[verifier::loop_isolation(false)]
    pub fn parse_database(code: &str) -> (r: Option<Database>)
        ensures
            match r {
                Some(db) => parse_database_spec(code@) == Some(db@),
                None => parse_database_spec(code@) is None,
            },
    {
        let n = code.unicode_len();
        let mut db = Database::empty();
        let mut i = skip_ws(code, 0);
        proof {
            assert(db@ =~= Seq::<SpecRule>::empty());
        }
        while i < n
            invariant
                i <= n,
                n == code@.len(),
                ({
                    let whole = parse_database_spec(code@);
                    match parse_database_at(code@, i as int) {
                        None => whole is None,
                        Some(rest) => whole == Some(db@ + rest),
                    }
                }),
            decreases n - i,
        {
            match parse_clause(code, i) {
                None => {
                    return None;
                },
                Some((head, body, j)) => {
                    let ghost head_spec = head@;
                    let ghost body_spec = body.deep_view();
                    let ghost db_prev = db@;
                    db = db.with_rule(head, body);
                    let next = skip_ws(code, j);
                    proof {
                        assert(adv(code@, i as int, skip_ws_spec(code@, j as int)) == next as int);
                        if parse_database_at(code@, next as int) is Some {
                            let rest2 = parse_database_at(code@, next as int)->Some_0;
                            assert(db_prev + (seq![
                                SpecRule { head: head_spec, body: body_spec },
                            ] + rest2) =~= db@ + rest2);
                        }
                    }
                    i = next;
                },
            }
        }
        proof {
            assert(parse_database_at(code@, i as int) == Some(Seq::<SpecRule>::empty()));
            assert(db@ + Seq::<SpecRule>::empty() =~= db@);
        }
        Some(db)
    }

    /// Parse a single term with nothing after it but whitespace.
    pub fn parse_term(code: &str) -> (r: Option<Term>)
        ensures
            match r {
                Some(t) => parse_term_only_spec(code@) == Some(t@),
                None => parse_term_only_spec(code@) is None,
            },
    {
        let n = code.unicode_len();
        let start = skip_ws(code, 0);
        match parse_term_at(code, start) {
            None => None,
            Some((t, j)) => {
                if skip_ws(code, j) == n {
                    Some(t)
                } else {
                    None
                }
            },
        }
    }
}

} // verus!
