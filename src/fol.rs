//! Syntax of first-order logic: sorts, symbols, variables, terms and formulas.
use vstd::prelude::*;

verus! {

/// A sort, identified by its name.
pub struct Sort {
    name: String,
}

/// A relation symbol: a name and the sorts of its arguments.
pub struct RelationSymbol {
    name: String,
    input_sorts: Vec<Sort>,
}

/// A function symbol: a name, the sorts of its arguments and the sort of its
/// result. Constants are function symbols without arguments.
pub struct FunctionSymbol {
    name: String,
    input_sorts: Vec<Sort>,
    output_sort: Sort,
}

/// The vocabulary of a theory.
pub struct Language {
    sorts: Vec<Sort>,
    function_symbols: Vec<FunctionSymbol>,
    relation_symbols: Vec<RelationSymbol>,
}

pub type VariableIndex = usize;

/// A variable: an index and a sort.
pub struct Variable {
    pub index: VariableIndex,
    pub sort: Sort,
}

pub enum Term {
    Variable(Variable),
    Application(FunctionSymbol, Vec<Term>),
}

pub enum Formula {
    RelationApplication(RelationSymbol, Vec<Term>),
    Equality(Term, Term),
    Negation(Box<Formula>),
    Implication(Box<Formula>, Box<Formula>),
    Equivalence(Box<Formula>, Box<Formula>),
    /// The empty conjunction is true.
    Conjunction(Vec<Formula>),
    /// The empty disjunction is false.
    Disjunction(Vec<Formula>),
    UniversalQuantification(Variable, Box<Formula>),
    ExistentialQuantification(Variable, Box<Formula>),
}

/// Identity of a function symbol: name, argument sorts, result sort.
pub struct SymbolV {
    pub name: Seq<char>,
    pub inputs: Seq<Seq<char>>,
    pub output: Seq<char>,
}

/// Identity of a relation symbol: name and argument sorts.
pub struct RelationV {
    pub name: Seq<char>,
    pub inputs: Seq<Seq<char>>,
}

/// Identity of a variable: index and sort name.
pub struct VarV {
    pub index: nat,
    pub sort: Seq<char>,
}

pub enum TermV {
    Var(VarV),
    App(SymbolV, Seq<TermV>),
}

pub enum FormulaV {
    Rel(RelationV, Seq<TermV>),
    Eq(TermV, TermV),
    Not(Box<FormulaV>),
    Imp(Box<FormulaV>, Box<FormulaV>),
    Iff(Box<FormulaV>, Box<FormulaV>),
    And(Seq<FormulaV>),
    Or(Seq<FormulaV>),
    Forall(VarV, Box<FormulaV>),
    Exists(VarV, Box<FormulaV>),
}

pub open spec fn sorts_view(s: Seq<Sort>) -> Seq<Seq<char>> {
    s.map_values(|x: Sort| x@)
}

pub open spec fn terms_view(ts: Seq<Term>) -> Seq<TermV>
    decreases ts,
{
    Seq::new(
        ts.len(),
        |i: int|
            if 0 <= i < ts.len() {
                ts[i].view()
            } else {
                TermV::Var(VarV { index: 0, sort: Seq::empty() })
            },
    )
}

pub open spec fn formulas_view(fs: Seq<Formula>) -> Seq<FormulaV>
    decreases fs,
{
    Seq::new(
        fs.len(),
        |i: int|
            if 0 <= i < fs.len() {
                fs[i].view()
            } else {
                FormulaV::And(Seq::empty())
            },
    )
}

impl Sort {
    pub closed spec fn view(&self) -> Seq<char> {
        self.name@
    }

    pub fn new(name: &str) -> (r: Sort)
        ensures
            r@ == name@,
    {
        Sort { name: name.to_owned() }
    }

    pub fn name(&self) -> (r: &str)
        ensures
            r@ == self@,
    {
        self.name.as_str()
    }

    pub fn copy(&self) -> (r: Sort)
        ensures
            r@ == self@,
    {
        Sort { name: self.name.clone() }
    }
}

impl PartialEq for Sort {
    fn eq(&self, other: &Sort) -> (r: bool) {
        self.name == other.name
    }
}

impl vstd::std_specs::cmp::PartialEqSpecImpl for Sort {
    open spec fn obeys_eq_spec() -> bool {
        true
    }

    open spec fn eq_spec(&self, other: &Sort) -> bool {
        self@ == other@
    }
}

impl Eq for Sort {

}

fn copy_sorts(s: &[Sort]) -> (r: Vec<Sort>)
    ensures
        sorts_view(r@) == sorts_view(s@),
{
    let mut r: Vec<Sort> = Vec::new();
    let mut i: usize = 0;
    while i < s.len()
        invariant
            i <= s@.len(),
            r@.len() == i,
            forall|j: int| 0 <= j < i ==> (#[trigger] r@[j])@ == s@[j]@,
        decreases s@.len() - i,
    {
        r.push(s[i].copy());
        i = i + 1;
    }
    assert(sorts_view(r@) =~= sorts_view(s@));
    r
}

fn copy_sort_refs(s: &[&Sort]) -> (r: Vec<Sort>)
    ensures
        r@.len() == s@.len(),
        forall|i: int| 0 <= i < s@.len() ==> (#[trigger] r@[i])@ == s@[i]@,
{
    let mut r: Vec<Sort> = Vec::new();
    let mut i: usize = 0;
    while i < s.len()
        invariant
            i <= s@.len(),
            r@.len() == i,
            forall|j: int| 0 <= j < i ==> (#[trigger] r@[j])@ == s@[j]@,
        decreases s@.len() - i,
    {
        r.push(s[i].copy());
        i = i + 1;
    }
    r
}

impl RelationSymbol {
    pub closed spec fn view(&self) -> RelationV {
        RelationV { name: self.name@, inputs: sorts_view(self.input_sorts@) }
    }

    pub fn new(name: &str, input_sorts: &[&Sort]) -> (r: RelationSymbol)
        ensures
            r@.name == name@,
            r@.inputs.len() == input_sorts@.len(),
            forall|i: int| 0 <= i < input_sorts@.len() ==> #[trigger] r@.inputs[i] == input_sorts@[i]@,
    {
        RelationSymbol { name: name.to_owned(), input_sorts: copy_sort_refs(input_sorts) }
    }

    pub fn name(&self) -> (r: &str)
        ensures
            r@ == self@.name,
    {
        self.name.as_str()
    }

    pub fn copy(&self) -> (r: RelationSymbol)
        ensures
            r@ == self@,
    {
        RelationSymbol { name: self.name.clone(), input_sorts: copy_sorts(self.input_sorts.as_slice()) }
    }
}

impl FunctionSymbol {
    pub closed spec fn view(&self) -> SymbolV {
        SymbolV { name: self.name@, inputs: sorts_view(self.input_sorts@), output: self.output_sort@ }
    }

    pub fn new(name: &str, input_sorts: &[&Sort], output_sort: &Sort) -> (r: FunctionSymbol)
        ensures
            r@.name == name@,
            r@.inputs.len() == input_sorts@.len(),
            forall|i: int| 0 <= i < input_sorts@.len() ==> #[trigger] r@.inputs[i] == input_sorts@[i]@,
            r@.output == output_sort@,
    {
        FunctionSymbol {
            name: name.to_owned(),
            input_sorts: copy_sort_refs(input_sorts),
            output_sort: output_sort.copy(),
        }
    }

    pub fn name(&self) -> (r: &str)
        ensures
            r@ == self@.name,
    {
        self.name.as_str()
    }

    /// Whether the symbol is called `name`.
    pub fn has_name(&self, name: &String) -> (r: bool)
        ensures
            r == (self@.name == name@),
    {
        self.name == *name
    }

    /// Number of arguments.
    pub fn arity(&self) -> (r: usize)
        ensures
            r == self@.inputs.len(),
    {
        self.input_sorts.len()
    }

    pub fn copy(&self) -> (r: FunctionSymbol)
        ensures
            r@ == self@,
    {
        FunctionSymbol {
            name: self.name.clone(),
            input_sorts: copy_sorts(self.input_sorts.as_slice()),
            output_sort: self.output_sort.copy(),
        }
    }
}

impl PartialEq for FunctionSymbol {
    /// Same name, same argument sorts in order, same result sort.
    fn eq(&self, other: &FunctionSymbol) -> (r: bool) {
        proof {
            assert(sorts_view(self.input_sorts@).len() == self.input_sorts@.len());
            assert(sorts_view(other.input_sorts@).len() == other.input_sorts@.len());
        }
        if self.name != other.name || self.input_sorts.len() != other.input_sorts.len() {
            return false;
        }
        let mut i: usize = 0;
        while i < self.input_sorts.len()
            invariant
                self.input_sorts@.len() == other.input_sorts@.len(),
                i <= self.input_sorts@.len(),
                forall|j: int| 0 <= j < i ==> self.input_sorts@[j]@ == other.input_sorts@[j]@,
            decreases self.input_sorts@.len() - i,
        {
            if self.input_sorts[i] != other.input_sorts[i] {
                assert(sorts_view(self.input_sorts@)[i as int] == self.input_sorts@[i as int]@);
                assert(sorts_view(other.input_sorts@)[i as int] == other.input_sorts@[i as int]@);
                return false;
            }
            i = i + 1;
        }
        assert(sorts_view(self.input_sorts@) =~= sorts_view(other.input_sorts@));
        self.output_sort == other.output_sort
    }
}

impl vstd::std_specs::cmp::PartialEqSpecImpl for FunctionSymbol {
    open spec fn obeys_eq_spec() -> bool {
        true
    }

    open spec fn eq_spec(&self, other: &FunctionSymbol) -> bool {
        self@ == other@
    }
}

impl Eq for FunctionSymbol {

}

impl Language {
    pub closed spec fn view(&self) -> Seq<SymbolV> {
        self.function_symbols@.map_values(|f: FunctionSymbol| f@)
    }

    pub fn new(
        sorts: &[&Sort],
        function_symbols: &[&FunctionSymbol],
        relation_symbols: &[&RelationSymbol],
    ) -> (r: Language)
        ensures
            r@.len() == function_symbols@.len(),
            forall|i: int| 0 <= i < function_symbols@.len() ==> #[trigger] r@[i] == function_symbols@[i]@,
    {
        let sorts = copy_sort_refs(sorts);
        let mut fs: Vec<FunctionSymbol> = Vec::new();
        let mut i: usize = 0;
        while i < function_symbols.len()
            invariant
                i <= function_symbols@.len(),
                fs@.len() == i,
                forall|j: int| 0 <= j < i ==> (#[trigger] fs@[j])@ == function_symbols@[j]@,
            decreases function_symbols@.len() - i,
        {
            fs.push(function_symbols[i].copy());
            i = i + 1;
        }
        let mut rs: Vec<RelationSymbol> = Vec::new();
        let mut i: usize = 0;
        while i < relation_symbols.len()
            invariant
                i <= relation_symbols@.len(),
            decreases relation_symbols@.len() - i,
        {
            rs.push(relation_symbols[i].copy());
            i = i + 1;
        }
        Language { sorts, function_symbols: fs, relation_symbols: rs }
    }

    /// The function symbols, in declaration order.
    pub fn iter_function_symbols(&self) -> (r: &[FunctionSymbol])
        ensures
            r@.len() == self@.len(),
            forall|i: int| 0 <= i < self@.len() ==> (#[trigger] r@[i])@ == self@[i],
    {
        self.function_symbols.as_slice()
    }
}

impl Variable {
    pub closed spec fn view(&self) -> VarV {
        VarV { index: self.index as nat, sort: self.sort@ }
    }

    pub fn copy(&self) -> (r: Variable)
        ensures
            r@ == self@,
    {
        Variable { index: self.index, sort: self.sort.copy() }
    }
}

impl PartialEq for Variable {
    fn eq(&self, other: &Variable) -> (r: bool) {
        self.index == other.index && self.sort == other.sort
    }
}

impl vstd::std_specs::cmp::PartialEqSpecImpl for Variable {
    open spec fn obeys_eq_spec() -> bool {
        true
    }

    open spec fn eq_spec(&self, other: &Variable) -> bool {
        self@ == other@
    }
}

impl Eq for Variable {

}

impl Term {
    pub open spec fn view(&self) -> TermV
        decreases self,
    {
        match self {
            Term::Variable(v) => TermV::Var(v@),
            Term::Application(f, args) => TermV::App(f@, terms_view(args@)),
        }
    }

    pub fn copy(&self) -> (r: Term)
        ensures
            r@ == self@,
        decreases self,
    {
        match self {
            Term::Variable(v) => Term::Variable(v.copy()),
            Term::Application(f, args) => Term::Application(f.copy(), copy_terms(args.as_slice())),
        }
    }

    pub fn new_variable(index: VariableIndex, sort: &Sort) -> (r: Term)
        ensures
            r@ == TermV::Var(VarV { index: index as nat, sort: sort@ }),
    {
        Term::Variable(Variable { index, sort: sort.copy() })
    }

    pub fn new_application(symbol: &FunctionSymbol, arguments: &[&Term]) -> (r: Term)
        ensures
            r@ == TermV::App(symbol@, Seq::new(arguments@.len(), |i: int| arguments@[i]@)),
    {
        let mut args: Vec<Term> = Vec::new();
        let mut i: usize = 0;
        while i < arguments.len()
            invariant
                i <= arguments@.len(),
                args@.len() == i,
                forall|j: int| 0 <= j < i ==> (#[trigger] args@[j])@ == arguments@[j]@,
            decreases arguments@.len() - i,
        {
            args.push(arguments[i].copy());
            i = i + 1;
        }
        assert(terms_view(args@) =~= Seq::new(arguments@.len(), |i: int| arguments@[i]@));
        Term::Application(symbol.copy(), args)
    }
}

fn copy_terms(ts: &[Term]) -> (r: Vec<Term>)
    ensures
        terms_view(r@) == terms_view(ts@),
    decreases ts@,
{
    let mut r: Vec<Term> = Vec::new();
    let mut i: usize = 0;
    while i < ts.len()
        invariant
            i <= ts@.len(),
            r@.len() == i,
            forall|j: int| 0 <= j < i ==> (#[trigger] r@[j])@ == ts@[j]@,
        decreases ts@.len() - i,
    {
        r.push(ts[i].copy());
        i = i + 1;
    }
    assert(terms_view(r@) =~= terms_view(ts@));
    r
}

fn copy_formulas(fs: &[Formula]) -> (r: Vec<Formula>)
    ensures
        formulas_view(r@) == formulas_view(fs@),
    decreases fs@,
{
    let mut r: Vec<Formula> = Vec::new();
    let mut i: usize = 0;
    while i < fs.len()
        invariant
            i <= fs@.len(),
            r@.len() == i,
            forall|j: int| 0 <= j < i ==> (#[trigger] r@[j])@ == fs@[j]@,
        decreases fs@.len() - i,
    {
        r.push(fs[i].copy());
        i = i + 1;
    }
    assert(formulas_view(r@) =~= formulas_view(fs@));
    r
}

fn copy_formula_refs(fs: &[&Formula]) -> (r: Vec<Formula>)
    ensures
        formulas_view(r@) == Seq::new(fs@.len(), |i: int| fs@[i]@),
{
    let mut r: Vec<Formula> = Vec::new();
    let mut i: usize = 0;
    while i < fs.len()
        invariant
            i <= fs@.len(),
            r@.len() == i,
            forall|j: int| 0 <= j < i ==> (#[trigger] r@[j])@ == fs@[j]@,
        decreases fs@.len() - i,
    {
        r.push(fs[i].copy());
        i = i + 1;
    }
    assert(formulas_view(r@) =~= Seq::new(fs@.len(), |i: int| fs@[i]@));
    r
}

fn copy_term_refs(ts: &[&Term]) -> (r: Vec<Term>)
    ensures
        terms_view(r@) == Seq::new(ts@.len(), |i: int| ts@[i]@),
{
    let mut r: Vec<Term> = Vec::new();
    let mut i: usize = 0;
    while i < ts.len()
        invariant
            i <= ts@.len(),
            r@.len() == i,
            forall|j: int| 0 <= j < i ==> (#[trigger] r@[j])@ == ts@[j]@,
        decreases ts@.len() - i,
    {
        r.push(ts[i].copy());
        i = i + 1;
    }
    assert(terms_view(r@) =~= Seq::new(ts@.len(), |i: int| ts@[i]@));
    r
}

impl Formula {
    pub open spec fn view(&self) -> FormulaV
        decreases self,
    {
        match self {
            Formula::RelationApplication(r, args) => FormulaV::Rel(r@, terms_view(args@)),
            Formula::Equality(l, r) => FormulaV::Eq(l@, r@),
            Formula::Negation(f) => FormulaV::Not(Box::new(f.view())),
            Formula::Implication(l, r) => FormulaV::Imp(Box::new(l.view()), Box::new(r.view())),
            Formula::Equivalence(l, r) => FormulaV::Iff(Box::new(l.view()), Box::new(r.view())),
            Formula::Conjunction(fs) => FormulaV::And(formulas_view(fs@)),
            Formula::Disjunction(fs) => FormulaV::Or(formulas_view(fs@)),
            Formula::UniversalQuantification(v, f) => FormulaV::Forall(v@, Box::new(f.view())),
            Formula::ExistentialQuantification(v, f) => FormulaV::Exists(v@, Box::new(f.view())),
        }
    }

    pub fn copy(&self) -> (r: Formula)
        ensures
            r@ == self@,
        decreases self,
    {
        match self {
            Formula::RelationApplication(r, args) => Formula::RelationApplication(
                r.copy(),
                copy_terms(args.as_slice()),
            ),
            Formula::Equality(l, r) => Formula::Equality(l.copy(), r.copy()),
            Formula::Negation(f) => Formula::Negation(Box::new((**f).copy())),
            Formula::Implication(l, r) => Formula::Implication(
                Box::new((**l).copy()),
                Box::new((**r).copy()),
            ),
            Formula::Equivalence(l, r) => Formula::Equivalence(
                Box::new((**l).copy()),
                Box::new((**r).copy()),
            ),
            Formula::Conjunction(fs) => Formula::Conjunction(copy_formulas(fs.as_slice())),
            Formula::Disjunction(fs) => Formula::Disjunction(copy_formulas(fs.as_slice())),
            Formula::UniversalQuantification(v, f) => Formula::UniversalQuantification(
                v.copy(),
                Box::new((**f).copy()),
            ),
            Formula::ExistentialQuantification(v, f) => Formula::ExistentialQuantification(
                v.copy(),
                Box::new((**f).copy()),
            ),
        }
    }

    /// The empty disjunction.
    pub fn falsum() -> (r: Formula)
        ensures
            r@ == FormulaV::Or(Seq::empty()),
    {
        let r = Formula::Disjunction(Vec::new());
        assert(formulas_view(Seq::<Formula>::empty()) =~= Seq::empty());
        r
    }

    /// The empty conjunction.
    pub fn verum() -> (r: Formula)
        ensures
            r@ == FormulaV::And(Seq::empty()),
    {
        let r = Formula::Conjunction(Vec::new());
        assert(formulas_view(Seq::<Formula>::empty()) =~= Seq::empty());
        r
    }

    pub fn new_relation_application(symbol: &RelationSymbol, arguments: &[&Term]) -> (r: Formula)
        ensures
            r@ == FormulaV::Rel(symbol@, Seq::new(arguments@.len(), |i: int| arguments@[i]@)),
    {
        Formula::RelationApplication(symbol.copy(), copy_term_refs(arguments))
    }

    pub fn new_equality(left: &Term, right: &Term) -> (r: Formula)
        ensures
            r@ == FormulaV::Eq(left@, right@),
    {
        Formula::Equality(left.copy(), right.copy())
    }

    pub fn new_negation(formula: &Formula) -> (r: Formula)
        ensures
            r@ == FormulaV::Not(Box::new(formula@)),
    {
        Formula::Negation(Box::new(formula.copy()))
    }

    pub fn new_conjunction(conjuncts: &[&Formula]) -> (r: Formula)
        ensures
            r@ == FormulaV::And(Seq::new(conjuncts@.len(), |i: int| conjuncts@[i]@)),
    {
        Formula::Conjunction(copy_formula_refs(conjuncts))
    }

    pub fn new_disjunction(disjuncts: &[&Formula]) -> (r: Formula)
        ensures
            r@ == FormulaV::Or(Seq::new(disjuncts@.len(), |i: int| disjuncts@[i]@)),
    {
        Formula::Disjunction(copy_formula_refs(disjuncts))
    }

    pub fn new_implication(left: &Formula, right: &Formula) -> (r: Formula)
        ensures
            r@ == FormulaV::Imp(Box::new(left@), Box::new(right@)),
    {
        Formula::Implication(Box::new(left.copy()), Box::new(right.copy()))
    }

    pub fn new_equivalence(left: &Formula, right: &Formula) -> (r: Formula)
        ensures
            r@ == FormulaV::Iff(Box::new(left@), Box::new(right@)),
    {
        Formula::Equivalence(Box::new(left.copy()), Box::new(right.copy()))
    }
}

/// Free variables of a term.
pub open spec fn term_free_vars(t: TermV) -> Set<VarV>
    decreases t,
{
    match t {
        TermV::Var(v) => set![v],
        TermV::App(_, args) => args_free_vars(args),
    }
}

pub open spec fn args_free_vars(ts: Seq<TermV>) -> Set<VarV>
    decreases ts,
{
    if ts.len() == 0 {
        Set::empty()
    } else {
        args_free_vars(ts.drop_last()) + term_free_vars(ts.last())
    }
}

/// Free variables of a formula: a quantifier binds its variable in its body.
pub open spec fn formula_free_vars(f: FormulaV) -> Set<VarV>
    decreases f,
{
    match f {
        FormulaV::Rel(_, args) => args_free_vars(args),
        FormulaV::Eq(t, u) => term_free_vars(t) + term_free_vars(u),
        FormulaV::Not(g) => formula_free_vars(*g),
        FormulaV::Imp(l, r) => formula_free_vars(*l) + formula_free_vars(*r),
        FormulaV::Iff(l, r) => formula_free_vars(*l) + formula_free_vars(*r),
        FormulaV::And(fs) => list_free_vars(fs),
        FormulaV::Or(fs) => list_free_vars(fs),
        FormulaV::Forall(v, b) => formula_free_vars(*b).remove(v),
        FormulaV::Exists(v, b) => formula_free_vars(*b).remove(v),
    }
}

pub open spec fn list_free_vars(fs: Seq<FormulaV>) -> Set<VarV>
    decreases fs,
{
    if fs.len() == 0 {
        Set::empty()
    } else {
        list_free_vars(fs.drop_last()) + formula_free_vars(fs.last())
    }
}

/// A set of variables.
pub struct VariableSet {
    vars: Vec<Variable>,
}

impl VariableSet {
    pub closed spec fn view(&self) -> Set<VarV> {
        Set::new(|v: VarV| exists|i: int| 0 <= i < self.vars@.len() && (#[trigger] self.vars@[i])@ == v)
    }

    pub fn new() -> (r: VariableSet)
        ensures
            r@ == Set::<VarV>::empty(),
    {
        let r = VariableSet { vars: Vec::new() };
        assert(r@ =~= Set::<VarV>::empty());
        r
    }

    pub fn contains(&self, v: &Variable) -> (r: bool)
        ensures
            r == self@.contains(v@),
    {
        let mut i: usize = 0;
        while i < self.vars.len()
            invariant
                i <= self.vars@.len(),
                forall|j: int| 0 <= j < i ==> (#[trigger] self.vars@[j])@ != v@,
            decreases self.vars@.len() - i,
        {
            if self.vars[i] == *v {
                return true;
            }
            i = i + 1;
        }
        false
    }

    pub fn insert(&mut self, v: &Variable)
        ensures
            final(self)@ == old(self)@.insert(v@),
    {
        if !self.contains(v) {
            let ghost before = self.vars@;
            self.vars.push(v.copy());
            proof {
                assert forall|x: VarV| self@.contains(x) == old(self)@.insert(v@).contains(x) by {
                    if old(self)@.contains(x) {
                        let i = choose|i: int| 0 <= i < before.len() && (#[trigger] before[i])@ == x;
                        assert(self.vars@[i] == before[i]);
                    }
                    if x == v@ {
                        assert(self.vars@[before.len() as int]@ == x);
                    }
                    if self@.contains(x) {
                        let i = choose|i: int| 0 <= i < self.vars@.len() && (#[trigger] self.vars@[i])@ == x;
                        if i < before.len() {
                            assert(self.vars@[i] == before[i]);
                        }
                    }
                }
                assert(self@ =~= old(self)@.insert(v@));
            }
        } else {
            assert(self@ =~= old(self)@.insert(v@));
        }
    }

    pub fn remove(&mut self, v: &Variable)
        ensures
            final(self)@ == old(self)@.remove(v@),
    {
        let mut kept: Vec<Variable> = Vec::new();
        let mut i: usize = 0;
        while i < self.vars.len()
            invariant
                i <= self.vars@.len(),
                self.vars@ == old(self).vars@,
                forall|j: int| 0 <= j < kept@.len() ==> (#[trigger] kept@[j])@ != v@ && exists|k: int|
                    0 <= k < i && (#[trigger] self.vars@[k])@ == kept@[j]@,
                forall|k: int|
                    0 <= k < i && (#[trigger] self.vars@[k])@ != v@ ==> exists|j: int|
                        0 <= j < kept@.len() && (#[trigger] kept@[j])@ == self.vars@[k]@,
            decreases self.vars@.len() - i,
        {
            let ghost before = kept@;
            if self.vars[i] != *v {
                kept.push(self.vars[i].copy());
                proof {
                    assert(kept@[before.len() as int]@ == self.vars@[i as int]@);
                    assert forall|j: int| 0 <= j < before.len() implies (#[trigger] kept@[j]) == before[j] by {}
                }
            }
            proof {
                assert forall|k: int|
                    0 <= k < i + 1 && (#[trigger] self.vars@[k])@ != v@ implies exists|j: int|
                        0 <= j < kept@.len() && (#[trigger] kept@[j])@ == self.vars@[k]@ by {
                    if k < i {
                        let j = choose|j: int| 0 <= j < before.len() && (#[trigger] before[j])@ == self.vars@[k]@;
                        assert(kept@[j] == before[j]);
                    } else {
                        assert(kept@[before.len() as int]@ == self.vars@[i as int]@);
                    }
                }
            }
            i = i + 1;
        }
        self.vars = kept;
        proof {
            assert forall|x: VarV| self@.contains(x) == old(self)@.remove(v@).contains(x) by {
                if self@.contains(x) {
                    let j = choose|j: int| 0 <= j < self.vars@.len() && (#[trigger] self.vars@[j])@ == x;
                    let k = choose|k: int| 0 <= k < old(self).vars@.len() && (#[trigger] old(self).vars@[k])@ == self.vars@[j]@;
                }
                if old(self)@.remove(v@).contains(x) {
                    let k = choose|k: int| 0 <= k < old(self).vars@.len() && (#[trigger] old(self).vars@[k])@ == x;
                }
            }
            assert(self@ =~= old(self)@.remove(v@));
        }
    }
}

impl Term {
    /// Adds the free variables of the term to `free_vars`.
    pub fn collect_free_variables_in_set(&self, free_vars: &mut VariableSet)
        ensures
            final(free_vars)@ == old(free_vars)@ + term_free_vars(self@),
        decreases self,
    {
        match self {
            Term::Variable(v) => {
                free_vars.insert(v);
                assert(old(free_vars)@.insert(v@) =~= old(free_vars)@ + set![v@]);
            },
            Term::Application(_, arguments) => {
                collect_terms_free_variables(arguments.as_slice(), free_vars);
            },
        }
    }

    /// The free variables of the term.
    pub fn get_free_variables(&self) -> (r: VariableSet)
        ensures
            r@ == term_free_vars(self@),
    {
        let mut free_vars = VariableSet::new();
        self.collect_free_variables_in_set(&mut free_vars);
        assert(free_vars@ =~= term_free_vars(self@));
        free_vars
    }
}

fn collect_terms_free_variables(ts: &[Term], free_vars: &mut VariableSet)
    ensures
        final(free_vars)@ == old(free_vars)@ + args_free_vars(terms_view(ts@)),
    decreases ts@,
{
    let ghost tv = terms_view(ts@);
    let mut i: usize = 0;
    while i < ts.len()
        invariant
            i <= ts@.len(),
            tv == terms_view(ts@),
            free_vars@ == old(free_vars)@ + args_free_vars(tv.subrange(0, i as int)),
        decreases ts@.len() - i,
    {
        ts[i].collect_free_variables_in_set(free_vars);
        proof {
            let t = tv.subrange(0, i + 1);
            assert(t.drop_last() =~= tv.subrange(0, i as int));
            assert(t.last() == ts@[i as int]@);
        }
        i = i + 1;
        assert(free_vars@ =~= old(free_vars)@ + args_free_vars(tv.subrange(0, i as int)));
    }
    assert(tv.subrange(0, i as int) =~= tv);
}

fn collect_formulas_free_variables(fs: &[Formula], free_vars: &mut VariableSet)
    ensures
        final(free_vars)@ == old(free_vars)@ + list_free_vars(formulas_view(fs@)),
    decreases fs@,
{
    let ghost fv = formulas_view(fs@);
    let mut i: usize = 0;
    while i < fs.len()
        invariant
            i <= fs@.len(),
            fv == formulas_view(fs@),
            free_vars@ == old(free_vars)@ + list_free_vars(fv.subrange(0, i as int)),
        decreases fs@.len() - i,
    {
        fs[i].collect_free_variables_in_set(free_vars);
        proof {
            let t = fv.subrange(0, i + 1);
            assert(t.drop_last() =~= fv.subrange(0, i as int));
            assert(t.last() == fs@[i as int]@);
        }
        i = i + 1;
        assert(free_vars@ =~= old(free_vars)@ + list_free_vars(fv.subrange(0, i as int)));
    }
    assert(fv.subrange(0, i as int) =~= fv);
}

impl Formula {
    /// Adds the free variables of the formula to `free_vars`.
    pub fn collect_free_variables_in_set(&self, free_vars: &mut VariableSet)
        ensures
            final(free_vars)@ == old(free_vars)@ + formula_free_vars(self@),
        decreases self,
    {
        match self {
            Formula::RelationApplication(_, arguments) => {
                collect_terms_free_variables(arguments.as_slice(), free_vars);
            },
            Formula::Equality(left, right) => {
                left.collect_free_variables_in_set(free_vars);
                right.collect_free_variables_in_set(free_vars);
                assert(free_vars@ =~= old(free_vars)@ + formula_free_vars(self@));
            },
            Formula::Negation(formula) => formula.collect_free_variables_in_set(free_vars),
            Formula::Implication(left, right) => {
                left.collect_free_variables_in_set(free_vars);
                right.collect_free_variables_in_set(free_vars);
                assert(free_vars@ =~= old(free_vars)@ + formula_free_vars(self@));
            },
            Formula::Equivalence(left, right) => {
                left.collect_free_variables_in_set(free_vars);
                right.collect_free_variables_in_set(free_vars);
                assert(free_vars@ =~= old(free_vars)@ + formula_free_vars(self@));
            },
            Formula::Conjunction(conjuncts) => {
                collect_formulas_free_variables(conjuncts.as_slice(), free_vars);
            },
            Formula::Disjunction(disjuncts) => {
                collect_formulas_free_variables(disjuncts.as_slice(), free_vars);
            },
            Formula::UniversalQuantification(variable, body) => {
                let had_before = free_vars.contains(variable);
                body.collect_free_variables_in_set(free_vars);
                if !had_before {
                    free_vars.remove(variable);
                }
                assert(free_vars@ =~= old(free_vars)@ + formula_free_vars(self@));
            },
            Formula::ExistentialQuantification(variable, body) => {
                let had_before = free_vars.contains(variable);
                body.collect_free_variables_in_set(free_vars);
                if !had_before {
                    free_vars.remove(variable);
                }
                assert(free_vars@ =~= old(free_vars)@ + formula_free_vars(self@));
            },
        }
    }

    /// The free variables of the formula.
    pub fn get_free_variables(&self) -> (r: VariableSet)
        ensures
            r@ == formula_free_vars(self@),
    {
        let mut free_vars = VariableSet::new();
        self.collect_free_variables_in_set(&mut free_vars);
        assert(free_vars@ =~= formula_free_vars(self@));
        free_vars
    }
}

} // verus!
