use vstd::prelude::*;

use crate::term::{lemma_fv_set_of_args_superset, str_eq, SpecBinding, SpecTerm, Term};

verus! {

/// The bindings of an `Assignments`, in storage order.
pub type SpecBindings = Seq<SpecBinding>;

/// The bindings a vector of pairs stands for, in order.
pub open spec fn pairs_view(v: Vec<(String, Term)>) -> SpecBindings {
    Seq::new(v@.len(), |i: int| (v@[i].0@, v@[i].1@))
}

/// The position of the first binding for `k`, or `ps.len()` if there is none.
pub open spec fn al_first(ps: SpecBindings, k: Seq<char>) -> int
    decreases ps.len(),
{
    if ps.len() == 0 {
        0
    } else if ps[0].0 == k {
        0
    } else {
        1 + al_first(ps.drop_first(), k)
    }
}

/// The term bound to `k`, if any: the first binding for `k` decides.
pub open spec fn al_get(ps: SpecBindings, k: Seq<char>) -> Option<SpecTerm> {
    if al_first(ps, k) < ps.len() {
        Some(ps[al_first(ps, k)].1)
    } else {
        None
    }
}

/// Bind `k` to `v`: replace the first binding for `k` in place, or append one.
pub open spec fn al_insert(ps: SpecBindings, k: Seq<char>, v: SpecTerm) -> SpecBindings {
    if al_first(ps, k) < ps.len() {
        ps.update(al_first(ps, k), (k, v))
    } else {
        ps.push((k, v))
    }
}

/// Insert the bindings of `qs` into `ps`, first pair first.
pub open spec fn al_insert_all(ps: SpecBindings, qs: SpecBindings) -> SpecBindings
    decreases qs.len(),
{
    if qs.len() == 0 {
        ps
    } else {
        al_insert_all(al_insert(ps, qs[0].0, qs[0].1), qs.drop_first())
    }
}

/// No variable is bound twice.
pub open spec fn al_wf(ps: SpecBindings) -> bool {
    forall|i: int, j: int| 0 <= i < j < ps.len() ==> ps[i].0 != ps[j].0
}

/// The mapping the bindings stand for.
pub open spec fn al_map(ps: SpecBindings) -> Map<Seq<char>, SpecTerm> {
    Map::new(|k: Seq<char>| al_get(ps, k) is Some, |k: Seq<char>| al_get(ps, k)->Some_0)
}

/// Union of `a` with the bindings of `b`, taken left to right; `None` if some
/// variable is bound to structurally unequal terms on the two sides.
pub open spec fn al_merge(a: SpecBindings, b: SpecBindings) -> Option<SpecBindings>
    decreases b.len(),
{
    if b.len() == 0 {
        Some(a)
    } else {
        match al_get(a, b[0].0) {
            Some(w) => if w == b[0].1 {
                al_merge(a, b.drop_first())
            } else {
                None
            },
            None => al_merge(a.push(b[0]), b.drop_first()),
        }
    }
}

/// `t` with every bound variable replaced, recursively, by what it is bound
/// to; each lookup along a path spends one unit of `fuel`, and a variable
/// reached with no fuel left is kept as it is. On an acyclic binding graph a
/// fuel of `ps.len()` resolves every chain completely.
pub open spec fn norm(ps: SpecBindings, t: SpecTerm, fuel: nat) -> SpecTerm
    decreases fuel, t,
{
    match t {
        SpecTerm::Var { name } => match al_get(ps, name) {
            Some(v) => if fuel == 0 {
                t
            } else {
                norm(ps, v, (fuel - 1) as nat)
            },
            None => t,
        },
        SpecTerm::App { name, args } => SpecTerm::App {
            name,
            args: Seq::new(
                args.len(),
                |i: int| if 0 <= i < args.len() {
                    norm(ps, args[i], fuel)
                } else {
                    t
                },
            ),
        },
    }
}

/// The bindings kept by `normalized`: the scope names in order, each bound
/// name once, with its fully resolved value.
pub open spec fn normalized_spec(
    ps: SpecBindings,
    scope: Seq<Seq<char>>,
    from: int,
    acc: SpecBindings,
) -> SpecBindings
    decreases scope.len() - from,
{
    if from < 0 || from >= scope.len() {
        acc
    } else {
        let k = scope[from];
        let acc2 = if al_get(ps, k) is Some && al_get(acc, k) is None {
            acc.push((k, norm(ps, al_get(ps, k)->Some_0, ps.len())))
        } else {
            acc
        };
        normalized_spec(ps, scope, from + 1, acc2)
    }
}

/// The facts `al_first` is used through: it is the least position holding `k`.
pub proof fn lemma_al_first(ps: SpecBindings, k: Seq<char>)
    ensures
        0 <= al_first(ps, k) <= ps.len(),
        al_first(ps, k) < ps.len() ==> ps[al_first(ps, k)].0 == k,
        forall|j: int| 0 <= j < al_first(ps, k) ==> ps[j].0 != k,
    decreases ps.len(),
{
    if ps.len() != 0 && ps[0].0 != k {
        lemma_al_first(ps.drop_first(), k);
        assert forall|j: int| 0 <= j < al_first(ps, k) implies ps[j].0 != k by {
            if j >= 1 {
                assert(ps.drop_first()[j - 1] == ps[j]);
                assert(j - 1 < al_first(ps.drop_first(), k));
            }
        }
    }
}

/// A mapping from variable names to terms. The same name is never bound twice;
/// a bound term may itself contain variables, bound or not.
#[derive(Debug)]
pub struct Assignments {
    pairs: Vec<(String, Term)>,
}

impl View for Assignments {
    type V = SpecBindings;

    closed spec fn view(&self) -> SpecBindings {
        pairs_view(self.pairs)
    }
}

impl Assignments {
    /// No variable bound twice.
    pub open spec fn wf(&self) -> bool {
        al_wf(self@)
    }

    /// The position of the first pair whose key is `key`, if any.
    #[verifier::loop_isolation(false)]
    fn find_index(&self, key: &str) -> (r: Option<usize>)
        ensures
            match r {
                Some(i) => i as int == al_first(self@, key@) && (i as int) < self@.len(),
                None => al_first(self@, key@) >= self@.len(),
            },
    {
        let mut i: usize = 0;
        while i < self.pairs.len()
            invariant
                0 <= i <= self@.len(),
                forall|j: int| 0 <= j < i ==> self@[j].0 != key@,
            decreases self@.len() - i,
        {
            if str_eq(self.pairs[i].0.as_str(), key) {
                proof {
                    lemma_al_first(self@, key@);
                    assert(self@[i as int].0 == key@);
                    if al_first(self@, key@) < i as int {
                        assert(self@[al_first(self@, key@)].0 == key@);
                        assert(false);
                    }
                    if al_first(self@, key@) > i as int {
                        assert(false);
                    }
                }
                return Some(i);
            }
            i += 1;
        }
        proof {
            lemma_al_first(self@, key@);
            if al_first(self@, key@) < self@.len() {
                assert(self@[al_first(self@, key@)].0 == key@);
            }
        }
        None
    }

    /// A mapping holding the given pairs, inserted in order; when a name
    /// appears twice the last pair wins.
    pub fn new(assignments: Vec<(String, Term)>) -> (r: Self)
        ensures
            r@ == al_insert_all(Seq::<SpecBinding>::empty(), pairs_view(assignments)),
            r.wf(),
    {
        let mut r = Self::empty();
        let ghost all = pairs_view(assignments);
        let mut i: usize = 0;
        proof {
            assert(all.skip(0) =~= all);
        }
        #[verifier::loop_isolation(false)]
        while i < assignments.len()
            invariant
                0 <= i <= assignments@.len(),
                r.wf(),
                al_insert_all(r@, all.skip(i as int)) == al_insert_all(
                    Seq::<SpecBinding>::empty(),
                    all,
                ),
            decreases assignments@.len() - i,
        {
            proof {
                assert(all.skip(i as int).drop_first() =~= all.skip(i + 1));
                assert(all.skip(i as int)[0] == (assignments@[i as int].0@,
                    assignments@[i as int].1@));
            }
            let value = assignments[i].1.duplicate();
            r.add(assignments[i].0.as_str(), value);
            i += 1;
        }
        proof {
            assert(all.skip(assignments@.len() as int) =~= Seq::<SpecBinding>::empty());
        }
        r
    }

    /// The empty mapping.
    pub fn empty() -> (r: Self)
        ensures
            r@ == Seq::<SpecBinding>::empty(),
            r.wf(),
    {
        let r = Self { pairs: Vec::new() };
        proof {
            assert(r@ =~= Seq::<SpecBinding>::empty());
        }
        r
    }

    /// Whether no variable is bound.
    pub fn is_empty(&self) -> (r: bool)
        ensures
            r == (self@.len() == 0),
    {
        self.pairs.len() == 0
    }

    /// Bind `variable` to `value`; an existing binding for it is replaced.
    pub fn add(&mut self, variable: &str, value: Term)
        requires
            old(self).wf(),
        ensures
            final(self)@ == al_insert(old(self)@, variable@, value@),
            final(self).wf(),
    {
        proof {
            lemma_al_first(self@, variable@);
        }
        match self.find_index(variable) {
            Some(i) => {
                let pair = (variable.to_owned(), value);
                self.pairs.remove(i);
                self.pairs.insert(i, pair);
                proof {
                    assert(self.pairs@ =~= old(self).pairs@.update(i as int, self.pairs@[i as int]));
                    assert(self@ =~= old(self)@.update(i as int, (variable@, value@)));
                    assert(self@ =~= al_insert(old(self)@, variable@, value@));
                }
            },
            None => {
                self.pairs.push((variable.to_owned(), value));
                proof {
                    assert(self@ =~= al_insert(old(self)@, variable@, value@));
                }
            },
        }
    }

    /// Builder form of `add`.
    pub fn with(self, variable: &str, value: Term) -> (r: Self)
        requires
            self.wf(),
        ensures
            r@ == al_insert(self@, variable@, value@),
            r.wf(),
    {
        let mut r = self;
        r.add(variable, value);
        r
    }

    /// A structurally equal copy.
    pub fn duplicate(&self) -> (r: Self)
        ensures
            r@ == self@,
    {
        let mut pairs: Vec<(String, Term)> = Vec::new();
        let mut i: usize = 0;
        #[verifier::loop_isolation(false)]
        while i < self.pairs.len()
            invariant
                0 <= i <= self@.len(),
                pairs_view(pairs).len() == i,
                forall|j: int| 0 <= j < i ==> pairs_view(pairs)[j] == self@[j],
            decreases self@.len() - i,
        {
            pairs.push((self.pairs[i].0.clone(), self.pairs[i].1.duplicate()));
            i += 1;
        }
        let r = Self { pairs };
        proof {
            assert(r@ =~= self@);
        }
        r
    }

    /// The union, as long as every variable bound on both sides is bound to
    /// structurally equal terms; otherwise nothing.
    pub fn merge(self, other: Self) -> (r: Option<Self>)
        requires
            self.wf(),
        ensures
            match r {
                Some(m) => al_merge(self@, other@) == Some(m@) && m.wf(),
                None => al_merge(self@, other@) is None,
            },
    {
        let mut acc = self;
        let ghost a0 = acc@;
        let ghost b = other@;
        let mut i: usize = 0;
        proof {
            assert(b.skip(0) =~= b);
        }
        #[verifier::loop_isolation(false)]
        while i < other.pairs.len()
            invariant
                0 <= i <= b.len(),
                acc.wf(),
                al_merge(acc@, b.skip(i as int)) == al_merge(a0, b),
            decreases b.len() - i,
        {
            proof {
                assert(b.skip(i as int).drop_first() =~= b.skip(i + 1));
                assert(b.skip(i as int)[0] == b[i as int]);
                lemma_al_first(acc@, b[i as int].0);
            }
            match acc.find_index(other.pairs[i].0.as_str()) {
                Some(k) => {
                    if !acc.pairs[k].1.same_term(&other.pairs[i].1) {
                        return None;
                    }
                },
                None => {
                    let ghost prev = acc@;
                    let value = other.pairs[i].1.duplicate();
                    acc.pairs.push((other.pairs[i].0.clone(), value));
                    proof {
                        assert(acc@ =~= prev.push(b[i as int]));
                        assert(forall|j: int| 0 <= j < prev.len() ==> prev[j].0 != b[i as int].0);
                    }
                },
            }
            i += 1;
        }
        proof {
            assert(b.skip(b.len() as int) =~= Seq::<SpecBinding>::empty());
        }
        Some(acc)
    }

    /// The stored pairs, in order.
    pub fn substitutions(&self) -> (r: &Vec<(String, Term)>)
        ensures
            pairs_view(*r) == self@,
    {
        &self.pairs
    }

    /// `term` with every bound variable resolved as far as `fuel` lookups allow.
    #[verifier::loop_isolation(false)]
    fn norm_with(&self, term: &Term, fuel: usize) -> (r: Term)
        ensures
            r@ == norm(self@, term@, fuel as nat),
        decreases fuel, term,
    {
        match term {
            Term::Variable { name } => {
                proof {
                    lemma_al_first(self@, name@);
                }
                match self.find_index(name.as_str()) {
                    Some(i) => {
                        proof {
                            assert(al_get(self@, name@) == Some(self@[i as int].1));
                            assert(self@[i as int].1 == self.pairs@[i as int].1@);
                        }
                        if fuel == 0 {
                            term.duplicate()
                        } else {
                            let bound = &self.pairs[i].1;
                            self.norm_with(bound, fuel - 1)
                        }
                    },
                    None => term.duplicate(),
                }
            },
            Term::Functor { name, arguments } => {
                let ghost args_spec = term@->App_args;
                let mut rewritten: Vec<Term> = Vec::new();
                let mut i: usize = 0;
                while i < arguments.len()
                    invariant
                        0 <= i <= arguments@.len(),
                        rewritten@.len() == i,
                        forall|j: int|
                            0 <= j < i ==> rewritten@[j]@ == norm(
                                self@,
                                arguments@[j]@,
                                fuel as nat,
                            ),
                    decreases arguments@.len() - i,
                {
                    rewritten.push(self.norm_with(&arguments[i], fuel));
                    i += 1;
                }
                let r = Term::Functor { name: name.clone(), arguments: rewritten };
                proof {
                    assert(r@->App_args =~= norm(self@, term@, fuel as nat)->App_args);
                }
                r
            },
        }
    }

    /// `term` with every bound variable resolved, recursively; chains as long
    /// as the number of bindings — every chain on an acyclic binding graph —
    /// are resolved completely.
    pub fn normalize_term(&self, term: &Term) -> (r: Term)
        ensures
            r@ == norm(self@, term@, self@.len() as nat),
    {
        self.norm_with(term, self.pairs.len())
    }

    /// Keep only the variables of `scope`, each with its fully resolved value;
    /// unbound scope variables are dropped.
    pub fn normalized(self, scope: &Vec<String>) -> (r: Self)
        ensures
            r@ == normalized_spec(self@, scope.deep_view(), 0, Seq::<SpecBinding>::empty()),
            r.wf(),
    {
        let mut acc = Self::empty();
        let ghost sc = scope.deep_view();
        let mut i: usize = 0;
        #[verifier::loop_isolation(false)]
        while i < scope.len()
            invariant
                0 <= i <= sc.len(),
                acc.wf(),
                normalized_spec(self@, sc, i as int, acc@) == normalized_spec(
                    self@,
                    sc,
                    0,
                    Seq::<SpecBinding>::empty(),
                ),
            decreases sc.len() - i,
        {
            proof {
                lemma_al_first(self@, sc[i as int]);
                lemma_al_first(acc@, sc[i as int]);
            }
            let name: &str = scope[i].as_str();
            match self.find_index(name) {
                Some(k) => {
                    match acc.find_index(name) {
                        Some(_) => {},
                        None => {
                            let ghost prev = acc@;
                            let resolved = self.norm_with(&self.pairs[k].1, self.pairs.len());
                            acc.pairs.push((name.to_owned(), resolved));
                            proof {
                                assert(acc@ =~= prev.push(
                                    (sc[i as int], norm(self@, self@[k as int].1, self@.len() as nat)),
                                ));
                                assert(forall|j: int| 0 <= j < prev.len() ==> prev[j].0 != sc[i as int]);
                            }
                        },
                    }
                },
                None => {},
            }
            i += 1;
        }
        acc
    }
}

impl PartialEq for Assignments {
    /// Two mappings are equal when they bind the same variables to
    /// structurally equal terms.
    fn eq(&self, other: &Self) -> (r: bool) {
        if self.pairs.len() != other.pairs.len() {
            return false;
        }
        let mut i: usize = 0;
        #[verifier::loop_isolation(false)]
        while i < self.pairs.len()
            invariant
                0 <= i <= self@.len(),
                self@.len() == other@.len(),
                forall|j: int|
                    0 <= j < i ==> al_get(other@, self@[j].0) == Some(self@[j].1),
            decreases self@.len() - i,
        {
            proof {
                lemma_al_first(other@, self@[i as int].0);
            }
            match other.find_index(self.pairs[i].0.as_str()) {
                Some(k) => {
                    if !self.pairs[i].1.same_term(&other.pairs[k].1) {
                        return false;
                    }
                },
                None => {
                    return false;
                },
            }
            i += 1;
        }
        true
    }
}

impl vstd::std_specs::cmp::PartialEqSpecImpl for Assignments {
    open spec fn obeys_eq_spec() -> bool {
        true
    }

    open spec fn eq_spec(&self, other: &Self) -> bool {
        self@.len() == other@.len() && forall|j: int|
            0 <= j < self@.len() ==> al_get(other@, self@[j].0) == Some(self@[j].1)
    }
}


/// Looking a key up after appending one binding: the stored bindings win;
/// the new pair answers only for a key not yet bound.
pub proof fn lemma_al_get_push(ps: SpecBindings, p: SpecBinding, k: Seq<char>)
    ensures
        al_get(ps.push(p), k) == (if al_get(ps, k) is Some {
            al_get(ps, k)
        } else if p.0 == k {
            Some(p.1)
        } else {
            None
        }),
    decreases ps.len(),
{
    if ps.len() == 0 {
        assert(ps.push(p)[0] == p);
        if p.0 != k {
            assert(ps.push(p).drop_first() =~= Seq::<SpecBinding>::empty());
            lemma_al_first(ps.push(p), k);
        }
    } else {
        assert(ps.push(p)[0] == ps[0]);
        if ps[0].0 != k {
            assert(ps.push(p).drop_first() =~= ps.drop_first().push(p));
            lemma_al_get_push(ps.drop_first(), p, k);
            lemma_al_first(ps, k);
            lemma_al_first(ps.push(p), k);
            lemma_al_first(ps.drop_first(), k);
            lemma_al_first(ps.drop_first().push(p), k);
        }
    }
}

/// Looking a key up in a concatenation: the left side answers first.
pub proof fn lemma_al_get_concat(a: SpecBindings, b: SpecBindings, k: Seq<char>)
    ensures
        al_get(a + b, k) == (if al_get(a, k) is Some {
            al_get(a, k)
        } else {
            al_get(b, k)
        }),
    decreases a.len(),
{
    if a.len() == 0 {
        assert(a + b =~= b);
        lemma_al_first(a, k);
    } else {
        assert((a + b)[0] == a[0]);
        if a[0].0 != k {
            assert((a + b).drop_first() =~= a.drop_first() + b);
            lemma_al_get_concat(a.drop_first(), b, k);
            lemma_al_first(a, k);
            lemma_al_first(a + b, k);
            lemma_al_first(a.drop_first(), k);
            lemma_al_first(a.drop_first() + b, k);
        } else {
            lemma_al_first(a, k);
            lemma_al_first(a + b, k);
        }
    }
}

/// Merging bindings with fresh keys only appends them.
pub proof fn lemma_merge_disjoint_is_concat(a: SpecBindings, b: SpecBindings)
    requires
        al_wf(b),
        forall|k: Seq<char>| !(al_get(a, k) is Some && al_get(b, k) is Some),
    ensures
        al_merge(a, b) == Some(a + b),
    decreases b.len(),
{
    if b.len() == 0 {
        assert(a + b =~= a);
    } else {
        lemma_al_first(b, b[0].0);
        assert(al_get(b, b[0].0) is Some);
        assert(al_get(a, b[0].0) is None);
        let a2 = a.push(b[0]);
        let b2 = b.drop_first();
        assert(al_wf(b2)) by {
            assert(forall|i: int, j: int|
                0 <= i < j < b2.len() ==> b2[i] == b[i + 1] && b2[j] == b[j + 1]);
        }
        assert forall|k: Seq<char>| !(al_get(a2, k) is Some && al_get(b2, k) is Some) by {
            lemma_al_get_push(a, b[0], k);
            if al_get(b2, k) is Some {
                lemma_al_first(b2, k);
                let i = al_first(b2, k);
                assert(b2[i] == b[i + 1]);
                assert(b[i + 1].0 == k);
                lemma_al_first(b, k);
                assert(al_get(b, k) is Some);
                assert(b[0].0 != k);
            }
        }
        lemma_merge_disjoint_is_concat(a2, b2);
        assert(a2 + b2 =~= a + b);
    }
}

/// Merge commutativity on disjoint domains: when no variable is bound on
/// both sides, and neither side binds a variable twice, merging in either
/// order succeeds, and the two results are equal as mappings.
pub proof fn lemma_merge_commutes_disjoint(a: SpecBindings, b: SpecBindings)
    requires
        al_wf(a),
        al_wf(b),
        forall|k: Seq<char>| !(al_get(a, k) is Some && al_get(b, k) is Some),
    ensures
        al_merge(a, b) is Some,
        al_merge(b, a) is Some,
        al_map(al_merge(a, b)->Some_0) == al_map(al_merge(b, a)->Some_0),
{
    lemma_merge_disjoint_is_concat(a, b);
    lemma_merge_disjoint_is_concat(b, a);
    assert forall|k: Seq<char>| #[trigger] al_get(a + b, k) == al_get(b + a, k) by {
        lemma_al_get_concat(a, b, k);
        lemma_al_get_concat(b, a, k);
    }
    assert(al_map(a + b) =~= al_map(b + a));
}


/// A term none of whose variables is bound resolves to itself.
pub proof fn lemma_norm_unbound(ps: SpecBindings, t: SpecTerm, fuel: nat)
    requires
        forall|name: Seq<char>| t.fv_set().contains(name) ==> al_get(ps, name) is None,
    ensures
        norm(ps, t, fuel) == t,
    decreases t,
{
    match t {
        SpecTerm::Var { name } => {
            assert(t.fv_set().contains(name));
        },
        SpecTerm::App { name, args } => {
            assert(t.fv_set() == SpecTerm::fv_set_of_args(args, 0));
            assert forall|i: int| 0 <= i < args.len() implies norm(ps, args[i], fuel) == args[i] by {
                lemma_fv_set_of_args_superset(args, 0, i);
                assert(forall|nm: Seq<char>|
                    args[i].fv_set().contains(nm) ==> t.fv_set().contains(nm));
                lemma_norm_unbound(ps, args[i], fuel);
            }
            assert(norm(ps, t, fuel)->App_args =~= args);
        },
    }
}

/// What the kept bindings of `normalized` hold: every binding of the result
/// comes from `ps`, fully resolved; every variable of the remaining scope
/// that `ps` binds is kept; and what the accumulator already held stays.
proof fn lemma_normalized_contents(
    ps: SpecBindings,
    scope: Seq<Seq<char>>,
    from: int,
    acc: SpecBindings,
)
    requires
        0 <= from,
        forall|k: Seq<char>| #[trigger] al_get(acc, k) is Some ==> al_get(ps, k) is Some
            && al_get(acc, k) == Some(
            norm(ps, al_get(ps, k)->Some_0, ps.len()),
        ),
    ensures
        forall|k: Seq<char>| #[trigger]
            al_get(normalized_spec(ps, scope, from, acc), k) is Some ==> al_get(ps, k) is Some
            && al_get(normalized_spec(ps, scope, from, acc), k) == Some(
            norm(ps, al_get(ps, k)->Some_0, ps.len()),
        ),
        forall|j: int|
            0 <= j && from <= j < scope.len() && al_get(ps, scope[j]) is Some ==> al_get(
                normalized_spec(ps, scope, from, acc),
                #[trigger] scope[j],
            ) is Some,
        forall|k: Seq<char>| #[trigger] al_get(acc, k) is Some ==> al_get(
            normalized_spec(ps, scope, from, acc),
            k,
        ) == al_get(acc, k),
    decreases scope.len() - from,
{
    if from < 0 || from >= scope.len() {
    } else {
        let k0 = scope[from];
        if al_get(ps, k0) is Some && al_get(acc, k0) is None {
            let acc2 = acc.push((k0, norm(ps, al_get(ps, k0)->Some_0, ps.len())));
            assert forall|k: Seq<char>| #[trigger] al_get(acc2, k) is Some implies al_get(
                ps,
                k,
            ) is Some && al_get(acc2, k) == Some(norm(ps, al_get(ps, k)->Some_0, ps.len())) by {
                lemma_al_get_push(acc, (k0, norm(ps, al_get(ps, k0)->Some_0, ps.len())), k);
            }
            lemma_normalized_contents(ps, scope, from + 1, acc2);
            lemma_al_get_push(acc, (k0, norm(ps, al_get(ps, k0)->Some_0, ps.len())), k0);
            assert(al_get(acc2, k0) is Some);
            assert(normalized_spec(ps, scope, from, acc) == normalized_spec(
                ps,
                scope,
                from + 1,
                acc2,
            ));
            assert(al_get(normalized_spec(ps, scope, from + 1, acc2), k0) == al_get(acc2, k0));
            assert forall|j: int|
                0 <= j && from <= j < scope.len() && al_get(ps, scope[j]) is Some implies al_get(
                normalized_spec(ps, scope, from, acc),
                scope[j],
            ) is Some by {
                if j == from {
                    assert(al_get(normalized_spec(ps, scope, from + 1, acc2), k0) is Some);
                } else {
                    assert(al_get(normalized_spec(ps, scope, from + 1, acc2), scope[j]) is Some);
                }
            }
            assert forall|k: Seq<char>| #[trigger] al_get(acc, k) is Some implies al_get(
                normalized_spec(ps, scope, from, acc),
                k,
            ) == al_get(acc, k) by {
                lemma_al_get_push(acc, (k0, norm(ps, al_get(ps, k0)->Some_0, ps.len())), k);
            }
        } else {
            lemma_normalized_contents(ps, scope, from + 1, acc);
            if al_get(ps, k0) is Some {
                assert(al_get(acc, k0) is Some);
                assert(al_get(normalized_spec(ps, scope, from + 1, acc), k0) == al_get(acc, k0));
            }
            assert forall|j: int|
                0 <= j && from <= j < scope.len() && al_get(ps, scope[j]) is Some implies al_get(
                normalized_spec(ps, scope, from, acc),
                scope[j],
            ) is Some by {
                if j == from {
                    assert(al_get(normalized_spec(ps, scope, from + 1, acc), k0) is Some);
                } else {
                    assert(al_get(normalized_spec(ps, scope, from + 1, acc), scope[j]) is Some);
                }
            }
        }
    }
}

/// Walking the scope over the once-normalized bindings takes the very same
/// steps as walking it over the original ones.
proof fn lemma_normalized_parallel(
    ps: SpecBindings,
    out: SpecBindings,
    scope: Seq<Seq<char>>,
    from: int,
    acc: SpecBindings,
)
    requires
        forall|k: Seq<char>| #[trigger] al_get(out, k) is Some ==> al_get(ps, k) is Some
            && al_get(out, k) == Some(norm(ps, al_get(ps, k)->Some_0, ps.len())),
        forall|j: int|
            0 <= j < scope.len() && al_get(ps, scope[j]) is Some ==> al_get(
                out,
                #[trigger] scope[j],
            ) is Some,
        forall|k: Seq<char>, name: Seq<char>|
            al_get(out, k) is Some && #[trigger] al_get(out, k)->Some_0.fv_set().contains(name)
                ==> al_get(out, name) is None,
    ensures
        normalized_spec(out, scope, from, acc) == normalized_spec(ps, scope, from, acc),
    decreases scope.len() - from,
{
    if from < 0 || from >= scope.len() {
    } else {
        let k0 = scope[from];
        if al_get(ps, k0) is Some && al_get(acc, k0) is None {
            assert(al_get(out, k0) is Some);
            let v = al_get(out, k0)->Some_0;
            assert(v == norm(ps, al_get(ps, k0)->Some_0, ps.len()));
            assert forall|name: Seq<char>| v.fv_set().contains(name) implies al_get(
                out,
                name,
            ) is None by {
                assert(al_get(out, k0) is Some && al_get(out, k0)->Some_0.fv_set().contains(name));
            }
            lemma_norm_unbound(out, v, out.len());
            let acc2 = acc.push((k0, v));
            lemma_normalized_parallel(ps, out, scope, from + 1, acc2);
        } else {
            if al_get(out, k0) is Some && al_get(acc, k0) is None {
                assert(al_get(ps, k0) is Some);
            }
            lemma_normalized_parallel(ps, out, scope, from + 1, acc);
        }
    }
}

/// Normalization idempotence: restricting and normalizing to a scope, done
/// twice, is the same as doing it once — whenever the one pass resolves its
/// values fully, as it does on every acyclic binding graph, where no
/// resolution chain is longer than the number of bindings.
pub proof fn lemma_normalized_idempotent(ps: SpecBindings, scope: Seq<Seq<char>>)
    requires
        forall|j: int, name: Seq<char>|
            0 <= j < normalized_spec(ps, scope, 0, Seq::empty()).len() && normalized_spec(
                ps,
                scope,
                0,
                Seq::empty(),
            )[j].1.fv_set().contains(name) ==> al_get(ps, name) is None,
    ensures
        normalized_spec(
            normalized_spec(ps, scope, 0, Seq::empty()),
            scope,
            0,
            Seq::empty(),
        ) == normalized_spec(ps, scope, 0, Seq::empty()),
{
    let out = normalized_spec(ps, scope, 0, Seq::empty());
    assert forall|k: Seq<char>| #[trigger] al_get(Seq::<SpecBinding>::empty(), k) is Some implies
        al_get(ps, k) is Some && al_get(Seq::<SpecBinding>::empty(), k) == Some(
        norm(ps, al_get(ps, k)->Some_0, ps.len()),
    ) by {
        lemma_al_first(Seq::<SpecBinding>::empty(), k);
    }
    lemma_normalized_contents(ps, scope, 0, Seq::empty());
    assert forall|k: Seq<char>, name: Seq<char>|
        al_get(out, k) is Some && #[trigger] al_get(out, k)->Some_0.fv_set().contains(name) implies
        al_get(out, name) is None by {
        lemma_al_first(out, k);
        let i = al_first(out, k);
        assert(out[i] == (k, al_get(out, k)->Some_0));
        assert(out[i].1.fv_set().contains(name));
        assert(al_get(ps, name) is None);
        if al_get(out, name) is Some {
            assert(al_get(ps, name) is Some);
        }
    }
    lemma_normalized_parallel(ps, out, scope, 0, Seq::empty());
}


/// The printed forms of the bindings from `from` on, comma-separated, each
/// as `name := value`.
pub open spec fn bindings_text(ps: SpecBindings, from: int) -> Seq<char>
    decreases ps.len() - from,
{
    if from < 0 || from >= ps.len() {
        Seq::empty()
    } else if from == ps.len() - 1 {
        ps[from].0 + " := "@ + ps[from].1.text()
    } else {
        ps[from].0 + " := "@ + ps[from].1.text() + ", "@ + bindings_text(ps, from + 1)
    }
}

impl Assignments {
    /// The printed form: the bindings in storage order, between brackets.
    #[verifier::loop_isolation(false)]
    pub fn to_text(&self) -> (r: String)
        ensures
            r@ == "["@ + bindings_text(self@, 0) + "]"@,
    {
        let mut out = String::from_str("[");
        proof {
            assert(out@ =~= "["@);
        }
        let mut i: usize = 0;
        while i < self.pairs.len()
            invariant
                0 <= i <= self@.len(),
                i < self@.len() ==> out@ + bindings_text(self@, i as int) == "["@ + bindings_text(
                    self@,
                    0,
                ),
                i == self@.len() ==> out@ == "["@ + bindings_text(self@, 0),
            decreases self@.len() - i,
        {
            out.append(self.pairs[i].0.as_str());
            out.append(" := ");
            let piece = self.pairs[i].1.to_text();
            out.append(piece.as_str());
            if i + 1 < self.pairs.len() {
                out.append(", ");
            }
            proof {
                assert(self@[i as int] == (self.pairs@[i as int].0@, self.pairs@[i as int].1@));
                if i + 1 < self@.len() {
                    assert(bindings_text(self@, i as int) == self@[i as int].0 + " := "@
                        + self@[i as int].1.text() + ", "@ + bindings_text(self@, i + 1));
                } else {
                    assert(bindings_text(self@, i as int) == self@[i as int].0 + " := "@
                        + self@[i as int].1.text());
                }
            }
            i += 1;
        }
        out.append("]");
        proof {
            assert(out@ =~= "["@ + bindings_text(self@, 0) + "]"@);
        }
        out
    }
}

} // verus!
