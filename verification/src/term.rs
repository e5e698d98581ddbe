use vstd::prelude::*;

use crate::assignments::Assignments;

verus! {

/// The mathematical shape of a term: a variable, or a functor applied to an
/// ordered list of argument terms. An atom is a functor with no arguments.
#[verifier::ext_equal]
pub ghost enum SpecTerm {
    Var { name: Seq<char> },
    App { name: Seq<char>, args: Seq<SpecTerm> },
}

/// One binding of a variable name to a term.
pub type SpecBinding = (Seq<char>, SpecTerm);

/// Append `x` to `acc` unless it is already present.
pub open spec fn add_name(acc: Seq<Seq<char>>, x: Seq<char>) -> Seq<Seq<char>> {
    if acc.contains(x) {
        acc
    } else {
        acc.push(x)
    }
}

impl SpecTerm {
    /// Replace every variable named `v` by `r`; the replacement is inserted
    /// verbatim, without substituting inside it again.
    pub open spec fn subst(self, v: Seq<char>, r: SpecTerm) -> SpecTerm
        decreases self,
    {
        match self {
            SpecTerm::Var { name } => if name == v {
                r
            } else {
                self
            },
            SpecTerm::App { name, args } => SpecTerm::App {
                name,
                args: Seq::new(
                    args.len(),
                    |i: int| if 0 <= i < args.len() {
                        args[i].subst(v, r)
                    } else {
                        self
                    },
                ),
            },
        }
    }

    /// Apply the bindings of `ps` one after the other, first pair first.
    pub open spec fn subst_all(self, ps: Seq<SpecBinding>) -> SpecTerm
        decreases ps.len(),
    {
        if ps.len() == 0 {
            self
        } else {
            self.subst(ps[0].0, ps[0].1).subst_all(ps.drop_first())
        }
    }

    /// The names of the variables of `self`, appended to `acc` in first-occurrence
    /// order; a name already present in `acc` is not repeated.
    pub open spec fn free_vars_into(self, acc: Seq<Seq<char>>) -> Seq<Seq<char>>
        decreases self, 0int, 0int,
    {
        match self {
            SpecTerm::Var { name } => add_name(acc, name),
            SpecTerm::App { name, args } => SpecTerm::free_vars_of_args(args, 0, acc),
        }
    }

    /// Variables of `args[from..]`, folded into `acc` left to right.
    pub open spec fn free_vars_of_args(
        args: Seq<SpecTerm>,
        from: int,
        acc: Seq<Seq<char>>,
    ) -> Seq<Seq<char>>
        decreases args, 1int, args.len() - from,
    {
        if from < 0 || from >= args.len() {
            acc
        } else {
            SpecTerm::free_vars_of_args(args, from + 1, args[from].free_vars_into(acc))
        }
    }

    /// The names of the variables of `self`, in first-occurrence order.
    pub open spec fn free_vars(self) -> Seq<Seq<char>> {
        self.free_vars_into(Seq::empty())
    }

    /// The set of names of the variables of `self`.
    pub open spec fn fv_set(self) -> Set<Seq<char>>
        decreases self, 0int, 0int,
    {
        match self {
            SpecTerm::Var { name } => set![name],
            SpecTerm::App { name, args } => SpecTerm::fv_set_of_args(args, 0),
        }
    }

    /// Union of the variable sets of `args[from..]`.
    pub open spec fn fv_set_of_args(args: Seq<SpecTerm>, from: int) -> Set<Seq<char>>
        decreases args, 1int, args.len() - from,
    {
        if from < 0 || from >= args.len() {
            Set::empty()
        } else {
            args[from].fv_set() + SpecTerm::fv_set_of_args(args, from + 1)
        }
    }

    /// The printed form: a variable or an atom is its name; a functor with
    /// arguments is the name followed by the comma-separated arguments in
    /// parentheses.
    pub open spec fn text(self) -> Seq<char>
        decreases self, 0int, 0int,
    {
        match self {
            SpecTerm::Var { name } => name,
            SpecTerm::App { name, args } => if args.len() == 0 {
                name
            } else {
                name + "("@ + SpecTerm::text_of_args(args, 0) + ")"@
            },
        }
    }

    /// The comma-separated printed forms of `args[from..]`.
    pub open spec fn text_of_args(args: Seq<SpecTerm>, from: int) -> Seq<char>
        decreases args, 1int, args.len() - from,
    {
        if from < 0 || from >= args.len() {
            Seq::empty()
        } else if from == args.len() - 1 {
            args[from].text()
        } else {
            args[from].text() + ", "@ + SpecTerm::text_of_args(args, from + 1)
        }
    }
}

/// A first-order term: a variable, or a functor with an ordered argument list.
/// A functor with no arguments is an atom.
#[derive(Debug, PartialEq, Eq)]
pub enum Term {
    Functor { name: String, arguments: Vec<Term> },
    Variable { name: String },
}

impl View for Term {
    type V = SpecTerm;

    open spec fn view(&self) -> SpecTerm
        decreases self,
    {
        match self {
            Term::Variable { name } => SpecTerm::Var { name: name@ },
            Term::Functor { name, arguments } => SpecTerm::App {
                name: name@,
                args: Seq::new(
                    arguments@.len(),
                    |i: int| if 0 <= i < arguments@.len() {
                        arguments@[i].view()
                    } else {
                        SpecTerm::Var { name: name@ }
                    },
                ),
            },
        }
    }
}

impl DeepView for Term {
    type V = SpecTerm;

    open spec fn deep_view(&self) -> SpecTerm {
        self.view()
    }
}

/// Whether two string slices hold the same characters.
#[verifier::loop_isolation(false)]
pub fn str_eq(a: &str, b: &str) -> (r: bool)
    ensures
        r == (a@ == b@),
{
    let la = a.unicode_len();
    let lb = b.unicode_len();
    if la != lb {
        return false;
    }
    let mut i: usize = 0;
    while i < la
        invariant
            la == a@.len(),
            la == b@.len(),
            0 <= i <= la,
            forall|j: int| 0 <= j < i ==> a@[j] == b@[j],
        decreases la - i,
    {
        if a.get_char(i) != b.get_char(i) {
            return false;
        }
        i += 1;
    }
    proof {
        assert(a@ =~= b@);
    }
    true
}

/// Whether some string of `v` holds the same characters as `x`.
#[verifier::loop_isolation(false)]
pub fn contains_name(v: &Vec<String>, x: &str) -> (r: bool)
    ensures
        r == v.deep_view().contains(x@),
{
    let mut i: usize = 0;
    while i < v.len()
        invariant
            0 <= i <= v@.len(),
            forall|j: int| 0 <= j < i ==> v.deep_view()[j] != x@,
        decreases v@.len() - i,
    {
        if str_eq(v[i].as_str(), x) {
            assert(v.deep_view()[i as int] == x@);
            return true;
        }
        i += 1;
    }
    assert(forall|j: int| 0 <= j < v.deep_view().len() ==> v.deep_view()[j] != x@);
    false
}

impl Term {
    /// Build a variable with the given name.
    pub fn variable(name: &str) -> (r: Self)
        ensures
            r@ == (SpecTerm::Var { name: name@ }),
    {
        Self::Variable { name: name.to_owned() }
    }

    /// Build an atom: a functor with no arguments.
    pub fn atom(name: &str) -> (r: Self)
        ensures
            r@ == (SpecTerm::App { name: name@, args: Seq::empty() }),
    {
        let r = Self::Functor { name: name.to_owned(), arguments: Vec::new() };
        proof {
            assert(r@->App_args =~= Seq::<SpecTerm>::empty());
        }
        r
    }

    /// Build a functor with the given name and arguments.
    pub fn functor(name: &str, arguments: Vec<Term>) -> (r: Self)
        ensures
            r@ == (SpecTerm::App { name: name@, args: arguments.deep_view() }),
    {
        let r = Self::Functor { name: name.to_owned(), arguments };
        proof {
            assert(r@->App_args =~= r->Functor_arguments.deep_view());
        }
        r
    }

    /// A structurally equal deep copy.
    #[verifier::loop_isolation(false)]
    pub fn duplicate(&self) -> (r: Self)
        ensures
            r@ == self@,
        decreases self,
    {
        match self {
            Term::Variable { name } => Term::Variable { name: name.clone() },
            Term::Functor { name, arguments } => {
                let mut copied: Vec<Term> = Vec::new();
                let mut i: usize = 0;
                while i < arguments.len()
                    invariant
                        0 <= i <= arguments@.len(),
                        copied@.len() == i,
                        forall|j: int| 0 <= j < i ==> copied@[j]@ == arguments@[j]@,
                    decreases arguments@.len() - i,
                {
                    copied.push(arguments[i].duplicate());
                    i += 1;
                }
                let r = Term::Functor { name: name.clone(), arguments: copied };
                proof {
                    assert(r@->App_args =~= self@->App_args);
                }
                r
            },
        }
    }

    /// Structural equality of two terms.
    #[verifier::loop_isolation(false)]
    pub fn same_term(&self, other: &Term) -> (r: bool)
        ensures
            r == (self@ == other@),
        decreases self,
    {
        match (self, other) {
            (Term::Variable { name: a }, Term::Variable { name: b }) => str_eq(
                a.as_str(),
                b.as_str(),
            ),
            (
                Term::Functor { name: a, arguments: args_a },
                Term::Functor { name: b, arguments: args_b },
            ) => {
                if !str_eq(a.as_str(), b.as_str()) {
                    return false;
                }
                if args_a.len() != args_b.len() {
                    assert(self@->App_args.len() != other@->App_args.len());
                    return false;
                }
                let mut i: usize = 0;
                while i < args_a.len()
                    invariant
                        0 <= i <= args_a@.len(),
                        args_a@.len() == args_b@.len(),
                        self@ matches SpecTerm::App { args, .. } && args.len() == args_a@.len(),
                        forall|j: int| 0 <= j < i ==> args_a@[j]@ == args_b@[j]@,
                    decreases args_a@.len() - i,
                {
                    if !args_a[i].same_term(&args_b[i]) {
                        assert(self@->App_args[i as int] != other@->App_args[i as int]);
                        return false;
                    }
                    i += 1;
                }
                proof {
                    assert(self@->App_args =~= other@->App_args);
                    assert(self@ =~= other@);
                }
                true
            },
            _ => {
                assert(self@ is Var <==> !(other@ is Var));
                false
            },
        }
    }

    /// Replace every variable named `var_name` by `term`, inserted verbatim.
    #[verifier::loop_isolation(false)]
    pub fn substitute(&self, var_name: &str, term: &Term) -> (r: Self)
        ensures
            r@ == self@.subst(var_name@, term@),
        decreases self,
    {
        match self {
            Term::Variable { name } => {
                if str_eq(name.as_str(), var_name) {
                    term.duplicate()
                } else {
                    Term::Variable { name: name.clone() }
                }
            },
            Term::Functor { name, arguments } => {
                let mut rewritten: Vec<Term> = Vec::new();
                let mut i: usize = 0;
                while i < arguments.len()
                    invariant
                        0 <= i <= arguments@.len(),
                        rewritten@.len() == i,
                        forall|j: int|
                            0 <= j < i ==> rewritten@[j]@ == arguments@[j]@.subst(
                                var_name@,
                                term@,
                            ),
                    decreases arguments@.len() - i,
                {
                    rewritten.push(arguments[i].substitute(var_name, term));
                    i += 1;
                }
                let r = Term::Functor { name: name.clone(), arguments: rewritten };
                proof {
                    assert(r@->App_args =~= self@.subst(var_name@, term@)->App_args);
                }
                r
            },
        }
    }

    /// The names of the variables of `self`, appended to `acc` in
    /// first-occurrence order, without duplicates.
    #[verifier::loop_isolation(false)]
    pub fn free_variables_into(&self, acc: Vec<String>) -> (r: Vec<String>)
        ensures
            r.deep_view() == self@.free_vars_into(acc.deep_view()),
        decreases self,
    {
        match self {
            Term::Variable { name } => {
                let mut acc = acc;
                if !contains_name(&acc, name.as_str()) {
                    acc.push(name.clone());
                }
                acc
            },
            Term::Functor { name, arguments } => {
                let ghost args_spec = self@->App_args;
                let mut acc = acc;
                let ghost acc0 = acc.deep_view();
                let mut i: usize = 0;
                proof {
                    assert(args_spec.len() == arguments@.len());
                }
                while i < arguments.len()
                    invariant
                        0 <= i <= arguments@.len(),
                        args_spec.len() == arguments@.len(),
                        forall|j: int| 0 <= j < arguments@.len() ==> args_spec[j] == arguments@[j]@,
                        SpecTerm::free_vars_of_args(args_spec, i as int, acc.deep_view())
                            == SpecTerm::free_vars_of_args(args_spec, 0, acc0),
                    decreases arguments@.len() - i,
                {
                    acc = arguments[i].free_variables_into(acc);
                    i += 1;
                }
                acc
            },
        }
    }

    /// The names of the variables of `self`, in first-occurrence order.
    pub fn free_variables(&self) -> (r: Vec<String>)
        ensures
            r.deep_view() == self@.free_vars(),
    {
        let acc: Vec<String> = Vec::new();
        proof {
            assert(acc.deep_view() =~= Seq::<Seq<char>>::empty());
        }
        self.free_variables_into(acc)
    }

    /// Apply each binding of `assignments` in turn, first stored pair first.
    #[verifier::loop_isolation(false)]
    pub fn substitute_all(&self, assignments: &Assignments) -> (r: Self)
        ensures
            r@ == self@.subst_all(assignments@),
    {
        let pairs = assignments.substitutions();
        let ghost all = assignments@;
        let mut t = self.duplicate();
        let mut i: usize = 0;
        proof {
            assert(all.skip(0) =~= all);
        }
        while i < pairs.len()
            invariant
                0 <= i <= all.len(),
                all.len() == pairs@.len(),
                forall|j: int| 0 <= j < all.len() ==> all[j] == (pairs@[j].0@, pairs@[j].1@),
                t@.subst_all(all.skip(i as int)) == self@.subst_all(all),
            decreases all.len() - i,
        {
            proof {
                assert(all.skip(i as int).drop_first() =~= all.skip(i + 1));
                assert(all.skip(i as int)[0] == all[i as int]);
            }
            t = t.substitute(pairs[i].0.as_str(), &pairs[i].1);
            i += 1;
        }
        proof {
            assert(all.skip(all.len() as int) =~= Seq::<crate::term::SpecBinding>::empty());
        }
        t
    }

    /// The printed form of the term.
    #[verifier::loop_isolation(false)]
    pub fn to_text(&self) -> (r: String)
        ensures
            r@ == self@.text(),
        decreases self,
    {
        match self {
            Term::Variable { name } => name.clone(),
            Term::Functor { name, arguments } => {
                if arguments.len() == 0 {
                    name.clone()
                } else {
                    let ghost args_spec = self@->App_args;
                    let mut out = name.clone();
                    out.append("(");
                    let mut i: usize = 0;
                    while i < arguments.len()
                        invariant
                            0 <= i <= arguments@.len(),
                            arguments@.len() > 0,
                            args_spec.len() == arguments@.len(),
                            forall|j: int|
                                0 <= j < arguments@.len() ==> args_spec[j] == arguments@[j]@,
                            i < arguments@.len() ==> out@ + SpecTerm::text_of_args(
                                args_spec,
                                i as int,
                            ) + ")"@ == name@ + "("@ + SpecTerm::text_of_args(args_spec, 0)
                                + ")"@,
                            i == arguments@.len() ==> out@ + ")"@ == name@ + "("@
                                + SpecTerm::text_of_args(args_spec, 0) + ")"@,
                        decreases arguments@.len() - i,
                    {
                        let piece = arguments[i].to_text();
                        out.append(piece.as_str());
                        if i + 1 < arguments.len() {
                            out.append(", ");
                        }
                        proof {
                            if i + 1 < arguments@.len() {
                                assert(SpecTerm::text_of_args(args_spec, i as int)
                                    == args_spec[i as int].text() + ", "@
                                    + SpecTerm::text_of_args(args_spec, i + 1));
                            } else {
                                assert(SpecTerm::text_of_args(args_spec, i as int)
                                    == args_spec[i as int].text());
                            }
                        }
                        i += 1;
                    }
                    out.append(")");
                    proof {
                        assert(out@ =~= self@.text());
                    }
                    out
                }
            },
        }
    }
}


/// Free variables under a single substitution: replacing `v` by `t` in `a`
/// removes `v` and adds at most the variables of `t`, loses no other
/// variable, and where `v` did occur the result's variables are exactly the
/// remaining ones together with all of `t`'s.
pub proof fn lemma_substitute_free_variables(a: SpecTerm, v: Seq<char>, t: SpecTerm)
    ensures
        a.subst(v, t).fv_set() <= a.fv_set().remove(v) + t.fv_set(),
        a.fv_set().remove(v) <= a.subst(v, t).fv_set(),
        a.fv_set().contains(v) ==> a.subst(v, t).fv_set() == a.fv_set().remove(v) + t.fv_set(),
    decreases a, 0int, 0int,
{
    match a {
        SpecTerm::Var { name } => {
            if name == v {
                assert(a.subst(v, t) == t);
                assert(a.fv_set().remove(v) =~= Set::<Seq<char>>::empty());
                assert(a.fv_set().contains(v));
                assert(t.fv_set() =~= a.fv_set().remove(v) + t.fv_set());
            } else {
                assert(a.subst(v, t) == a);
                assert(!a.fv_set().contains(v));
                assert(a.fv_set().remove(v) =~= a.fv_set());
                assert(a.fv_set() <= a.fv_set().remove(v) + t.fv_set());
            }
        },
        SpecTerm::App { name, args } => {
            let mapped = a.subst(v, t)->App_args;
            assert(mapped.len() == args.len());
            assert(forall|i: int| 0 <= i < args.len() ==> mapped[i] == args[i].subst(v, t));
            lemma_substitute_free_vars_args(args, 0, v, t, mapped);
            assert(a.subst(v, t).fv_set() == SpecTerm::fv_set_of_args(mapped, 0));
            assert(a.fv_set() == SpecTerm::fv_set_of_args(args, 0));
        },
    }
}

/// The argument-list case of `lemma_substitute_free_variables`, over the
/// arguments from `from` on.
proof fn lemma_substitute_free_vars_args(
    args: Seq<SpecTerm>,
    from: int,
    v: Seq<char>,
    t: SpecTerm,
    mapped: Seq<SpecTerm>,
)
    requires
        mapped.len() == args.len(),
        forall|i: int| 0 <= i < args.len() ==> mapped[i] == args[i].subst(v, t),
    ensures
        SpecTerm::fv_set_of_args(mapped, from) <= SpecTerm::fv_set_of_args(args, from).remove(v)
            + t.fv_set(),
        SpecTerm::fv_set_of_args(args, from).remove(v) <= SpecTerm::fv_set_of_args(mapped, from),
        SpecTerm::fv_set_of_args(args, from).contains(v) ==> SpecTerm::fv_set_of_args(mapped, from)
            == SpecTerm::fv_set_of_args(args, from).remove(v) + t.fv_set(),
    decreases args, 1int, args.len() - from,
{
    if from < 0 || from >= args.len() {
        assert(SpecTerm::fv_set_of_args(args, from).remove(v) =~= Set::<Seq<char>>::empty());
    } else {
        lemma_substitute_free_variables(args[from], v, t);
        lemma_substitute_free_vars_args(args, from + 1, v, t, mapped);
        let fv_a = args[from].fv_set();
        let fv_rest = SpecTerm::fv_set_of_args(args, from + 1);
        let fv_ma = mapped[from].fv_set();
        let fv_mrest = SpecTerm::fv_set_of_args(mapped, from + 1);
        assert((fv_a + fv_rest).remove(v) =~= fv_a.remove(v) + fv_rest.remove(v));
        assert(fv_ma + fv_mrest <= (fv_a + fv_rest).remove(v) + t.fv_set());
        assert((fv_a + fv_rest).remove(v) <= fv_ma + fv_mrest);
        if (fv_a + fv_rest).contains(v) {
            if fv_a.contains(v) {
                assert(fv_ma == fv_a.remove(v) + t.fv_set());
                assert(fv_ma + fv_mrest =~= (fv_a + fv_rest).remove(v) + t.fv_set());
            } else {
                assert(fv_rest.contains(v));
                assert(fv_mrest == fv_rest.remove(v) + t.fv_set());
                assert(fv_ma + fv_mrest =~= (fv_a + fv_rest).remove(v) + t.fv_set());
            }
        }
    }
}


/// Each argument's variables are among the argument list's variables.
pub proof fn lemma_fv_set_of_args_superset(args: Seq<SpecTerm>, from: int, i: int)
    requires
        0 <= from <= i < args.len(),
    ensures
        args[i].fv_set() <= SpecTerm::fv_set_of_args(args, from),
    decreases i - from,
{
    if from < i {
        lemma_fv_set_of_args_superset(args, from + 1, i);
    }
}


/// Collecting free variables adds nothing when every variable of the term is
/// already collected.
pub proof fn lemma_free_vars_into_absorbed(t: SpecTerm, acc: Seq<Seq<char>>)
    requires
        forall|n: Seq<char>| t.fv_set().contains(n) ==> acc.contains(n),
    ensures
        t.free_vars_into(acc) == acc,
    decreases t, 0int, 0int,
{
    match t {
        SpecTerm::Var { name } => {
            assert(t.fv_set().contains(name));
        },
        SpecTerm::App { name, args } => {
            lemma_free_vars_of_args_absorbed(args, 0, acc);
        },
    }
}

/// The argument-list case of `lemma_free_vars_into_absorbed`.
pub proof fn lemma_free_vars_of_args_absorbed(
    args: Seq<SpecTerm>,
    from: int,
    acc: Seq<Seq<char>>,
)
    requires
        forall|n: Seq<char>| SpecTerm::fv_set_of_args(args, from).contains(n) ==> acc.contains(n),
    ensures
        SpecTerm::free_vars_of_args(args, from, acc) == acc,
    decreases args, 1int, args.len() - from,
{
    if from < 0 || from >= args.len() {
    } else {
        assert(forall|n: Seq<char>|
            args[from].fv_set().contains(n) ==> SpecTerm::fv_set_of_args(
                args,
                from,
            ).contains(n));
        lemma_free_vars_into_absorbed(args[from], acc);
        lemma_free_vars_of_args_absorbed(args, from + 1, acc);
    }
}

} // verus!
