//! Symbols, rules, the grammar builder and the finished grammar.
use crate::nullable::{find_nullable, ranks_ok};
use crate::equality::{
    lemma_place, place, rule_shapes, symbol_shapes, GrammarShape, RuleShape, SymbolShape,
};
use crate::order::Addition;
use crate::pattern::Pattern;
use crate::tree::{tidy_parse, TreeView};
use vstd::prelude::*;
use vstd::string::*;

verus! {

/// A grammar symbol: a nonterminal, or a terminal with the pattern that
/// decides which lexemes it matches. Symbols are told apart by their names.
#[derive(Debug)]
pub enum Symbol {
    NonTerm(String),
    Terminal(String, Pattern),
}

impl Symbol {
    /// The symbol's name.
    pub open spec fn name(&self) -> Seq<char> {
        match self {
            Symbol::NonTerm(name) => name@,
            Symbol::Terminal(name, _) => name@,
        }
    }

    /// Whether the symbol is a terminal that matches `lexeme`.
    pub open spec fn accepts(&self, lexeme: Seq<char>) -> bool {
        match self {
            Symbol::NonTerm(_) => false,
            Symbol::Terminal(_, pattern) => pattern.accepts(lexeme),
        }
    }

    /// Whether the symbol is called `name`.
    pub fn is_named(&self, name: &String) -> (r: bool)
        ensures
            r == (self.name() == name@),
    {
        match self {
            Symbol::NonTerm(own) => *own == *name,
            Symbol::Terminal(own, _) => *own == *name,
        }
    }

    /// Decides whether the symbol is a terminal that matches `lexeme`.
    pub fn matches(&self, lexeme: &String) -> (r: bool)
        ensures
            r == self.accepts(lexeme@),
    {
        match self {
            Symbol::NonTerm(_) => false,
            Symbol::Terminal(_, pattern) => pattern.matches(lexeme),
        }
    }

    /// Whether the symbol is a terminal.
    pub fn is_terminal(&self) -> (r: bool)
        ensures
            r == (self is Terminal),
    {
        match self {
            Symbol::NonTerm(_) => false,
            Symbol::Terminal(_, _) => true,
        }
    }

    /// A copy of the symbol's name.
    pub fn name_text(&self) -> (r: String)
        ensures
            r@ == self.name(),
    {
        match self {
            Symbol::NonTerm(own) => own.clone(),
            Symbol::Terminal(own, _) => own.clone(),
        }
    }
}

/// A production: the index of its head among the grammar's symbols, the
/// indices of its body symbols, and its printed form.
#[derive(Debug)]
pub struct Rule {
    pub head: usize,
    pub body: Vec<usize>,
    pub label: String,
}

/// Why a grammar could not be built.
#[derive(Debug, PartialEq, Eq)]
pub enum GrammarError {
    /// The name is already declared as a symbol of the other kind.
    DuplicateSymbol(String),
    /// A rule names a head that is no nonterminal, or a body symbol that was
    /// never declared.
    UnknownSymbol(String),
    /// The start symbol was never declared.
    UnknownStart(String),
    /// The start symbol has no production.
    NoRulesForStart(String),
}

/// The names joined by single spaces.
pub open spec fn join_names(names: Seq<Seq<char>>) -> Seq<char>
    decreases names.len(),
{
    if names.len() == 0 {
        Seq::empty()
    } else if names.len() == 1 {
        names[0]
    } else {
        join_names(names.drop_last()) + " "@ + names.last()
    }
}

/// The printed form of a rule: the head, an arrow, and the body's names
/// separated by single spaces.
pub open spec fn rule_label(head: Seq<char>, body: Seq<Seq<char>>) -> Seq<char> {
    head + " -> "@ + join_names(body)
}

/// The texts of a slice of strings.
pub open spec fn texts(names: Seq<&str>) -> Seq<Seq<char>> {
    Seq::new(names.len(), |k: int| names[k]@)
}

/// The names of the symbols with the given indices.
pub open spec fn names_of(symbols: Seq<Symbol>, ids: Seq<usize>) -> Seq<Seq<char>> {
    Seq::new(ids.len(), |k: int| symbols[ids[k] as int].name())
}

/// Whether some symbol is called `name`.
pub open spec fn declared(symbols: Seq<Symbol>, name: Seq<char>) -> bool {
    exists|i: int| 0 <= i < symbols.len() && (#[trigger] symbols[i]).name() == name
}

/// Whether some nonterminal is called `name`.
pub open spec fn nonterminal_in(symbols: Seq<Symbol>, name: Seq<char>) -> bool {
    exists|i: int|
        0 <= i < symbols.len() && (#[trigger] symbols[i]).name() == name && symbols[i] is NonTerm
}

/// Whether some terminal is called `name`.
pub open spec fn terminal_in(symbols: Seq<Symbol>, name: Seq<char>) -> bool {
    exists|i: int|
        0 <= i < symbols.len() && (#[trigger] symbols[i]).name() == name && symbols[i] is Terminal
}

/// Whether some terminal is called `name` and matches `lexeme`.
pub open spec fn accepted_in(symbols: Seq<Symbol>, name: Seq<char>, lexeme: Seq<char>) -> bool {
    exists|i: int|
        0 <= i < symbols.len() && (#[trigger] symbols[i]).name() == name && symbols[i].accepts(
            lexeme,
        )
}

/// Whether some rule has the head called `head` and the body called `body`.
pub open spec fn rule_in(
    symbols: Seq<Symbol>,
    rules: Seq<Rule>,
    head: Seq<char>,
    body: Seq<Seq<char>>,
) -> bool {
    exists|r: int|
        0 <= r < rules.len() && symbols[(#[trigger] rules[r]).head as int].name() == head
            && names_of(symbols, rules[r].body@) == body
}

/// Whether some rule is printed as `label`.
pub open spec fn label_in(rules: Seq<Rule>, label: Seq<char>) -> bool {
    exists|r: int| 0 <= r < rules.len() && (#[trigger] rules[r]).label@ == label
}

/// Whether a rule refers to declared symbols only, has a nonterminal for its
/// head, and carries its own printed form.
pub open spec fn rule_ok(symbols: Seq<Symbol>, rule: Rule) -> bool {
    &&& rule.head < symbols.len()
    &&& symbols[rule.head as int] is NonTerm
    &&& forall|k: int| 0 <= k < rule.body.len() ==> (#[trigger] rule.body[k]) < symbols.len()
    &&& rule.label@ == rule_label(
        symbols[rule.head as int].name(),
        names_of(symbols, rule.body@),
    )
}

/// Whether the symbols have distinct names, every rule is sound, and no two
/// rules are printed alike.
pub open spec fn tables_ok(symbols: Seq<Symbol>, rules: Seq<Rule>) -> bool {
    &&& forall|i: int, j: int|
        0 <= i < j < symbols.len() ==> (#[trigger] symbols[i]).name() != (
        #[trigger] symbols[j]).name()
    &&& forall|r: int| 0 <= r < rules.len() ==> rule_ok(symbols, #[trigger] rules[r])
    &&& forall|r: int, q: int|
        0 <= r < q < rules.len() ==> (#[trigger] rules[r]).label@ != (#[trigger] rules[q]).label@
}

/// The index of the symbol called `name`, if there is one.
pub fn find_symbol(symbols: &Vec<Symbol>, name: &String) -> (r: Option<usize>)
    ensures
        match r {
            Some(i) => i < symbols.len() && symbols[i as int].name() == name@,
            None => !declared(symbols@, name@),
        },
{
    let mut i: usize = 0;
    while i < symbols.len()
        invariant
            i <= symbols.len(),
            forall|j: int| 0 <= j < i ==> symbols[j].name() != name@,
        decreases symbols.len() - i,
    {
        if symbols[i].is_named(name) {
            return Some(i);
        }
        i += 1;
    }
    None
}

/// The index of the rule printed as `label`, if there is one.
pub fn find_label(rules: &Vec<Rule>, label: &String) -> (r: Option<usize>)
    ensures
        match r {
            Some(i) => i < rules.len() && rules[i as int].label@ == label@,
            None => !label_in(rules@, label@),
        },
{
    let mut i: usize = 0;
    while i < rules.len()
        invariant
            i <= rules.len(),
            forall|j: int| 0 <= j < i ==> rules[j].label@ != label@,
        decreases rules.len() - i,
    {
        if rules[i].label == *label {
            return Some(i);
        }
        i += 1;
    }
    None
}

/// The printed form of the rule with head `head` and body `body`.
pub(crate) fn make_label(symbols: &Vec<Symbol>, head: usize, body: &Vec<usize>) -> (r: String)
    requires
        head < symbols.len(),
        forall|k: int| 0 <= k < body.len() ==> (#[trigger] body[k]) < symbols.len(),
    ensures
        r@ == rule_label(symbols[head as int].name(), names_of(symbols@, body@)),
{
    let mut label = symbols[head].name_text();
    label.append(" -> ");
    let ghost prefix = label@;
    let mut k: usize = 0;
    while k < body.len()
        invariant
            k <= body.len(),
            forall|j: int| 0 <= j < body.len() ==> (#[trigger] body[j]) < symbols.len(),
            label@ == prefix + join_names(names_of(symbols@, body@.subrange(0, k as int))),
        decreases body.len() - k,
    {
        let ghost before = names_of(symbols@, body@.subrange(0, k as int));
        let ghost after = names_of(symbols@, body@.subrange(0, k + 1));
        if k > 0 {
            label.append(" ");
        }
        let name = symbols[body[k]].name_text();
        label.append(name.as_str());
        proof {
            assert(after.drop_last() =~= before);
            assert(after.last() == name@);
            assert(label@ =~= prefix + join_names(after));
        }
        k += 1;
    }
    assert(body@.subrange(0, body.len() as int) =~= body@);
    label
}

/// A staging area for symbols and rules. The first failure is remembered
/// and every later operation leaves the builder as it is; `into_grammar`
/// reports it.
pub struct GrammarBuilder {
    pub(crate) symbols: Vec<Symbol>,
    pub(crate) rules: Vec<Rule>,
    pub(crate) error: Option<GrammarError>,
}

impl GrammarBuilder {
    /// The builder's invariant.
    #[verifier::type_invariant]
    pub closed spec fn wf(&self) -> bool {
        tables_ok(self.symbols@, self.rules@)
    }

    /// The failure that the builder remembers, if any.
    pub closed spec fn error(&self) -> Option<GrammarError> {
        self.error
    }

    /// Whether `name` is declared as a nonterminal.
    pub closed spec fn is_nonterminal(&self, name: Seq<char>) -> bool {
        nonterminal_in(self.symbols@, name)
    }

    /// Whether `name` is declared as a terminal.
    pub closed spec fn is_terminal(&self, name: Seq<char>) -> bool {
        terminal_in(self.symbols@, name)
    }

    /// Whether `name` is declared as a terminal that matches `lexeme`.
    pub closed spec fn terminal_accepts(&self, name: Seq<char>, lexeme: Seq<char>) -> bool {
        accepted_in(self.symbols@, name, lexeme)
    }

    /// Whether the rule with this head and body was added.
    pub closed spec fn has_rule(&self, head: Seq<char>, body: Seq<Seq<char>>) -> bool {
        rule_in(self.symbols@, self.rules@, head, body)
    }

    /// Whether a rule with this printed form was added.
    pub closed spec fn has_label(&self, label: Seq<char>) -> bool {
        label_in(self.rules@, label)
    }

    /// Whether `other` declares the same terminals with the same patterns.
    pub open spec fn same_terminals(&self, other: &GrammarBuilder) -> bool {
        &&& forall|n: Seq<char>| self.is_terminal(n) == other.is_terminal(n)
        &&& forall|n: Seq<char>, l: Seq<char>|
            self.terminal_accepts(n, l) == other.terminal_accepts(n, l)
    }

    /// Whether `other` declares the same nonterminals.
    pub open spec fn same_nonterminals(&self, other: &GrammarBuilder) -> bool {
        forall|n: Seq<char>| self.is_nonterminal(n) == other.is_nonterminal(n)
    }

    /// Whether `other` holds the same rules.
    pub open spec fn same_rules(&self, other: &GrammarBuilder) -> bool {
        &&& forall|h: Seq<char>, b: Seq<Seq<char>>| self.has_rule(h, b) == other.has_rule(h, b)
        &&& forall|l: Seq<char>| self.has_label(l) == other.has_label(l)
    }

    /// A builder without symbols or rules.
    pub fn new() -> (r: GrammarBuilder)
        ensures
            r.error() is None,
            forall|n: Seq<char>| !r.is_nonterminal(n) && !r.is_terminal(n),
            forall|n: Seq<char>, l: Seq<char>| !r.terminal_accepts(n, l),
            forall|h: Seq<char>, b: Seq<Seq<char>>| !r.has_rule(h, b),
            forall|l: Seq<char>| !r.has_label(l),
            r.symbols_shape() == Seq::<SymbolShape>::empty(),
            r.rules_shape() == Seq::<RuleShape>::empty(),
    {
        let r = GrammarBuilder { symbols: Vec::new(), rules: Vec::new(), error: None };
        proof {
            assert(r.symbols_shape() =~= Seq::<SymbolShape>::empty());
            assert(r.rules_shape() =~= Seq::<RuleShape>::empty());
        }
        r
    }

    /// Declares the nonterminal `name`. Declaring it again changes nothing;
    /// a terminal of that name is a `DuplicateSymbol` failure.
    pub fn symbol(self, name: &str) -> (r: GrammarBuilder)
        ensures
            self.error() is Some ==> r == self,
            self.error() is None && self.is_terminal(name@) ==> (r.error() matches Some(
                GrammarError::DuplicateSymbol(n),
            ) && n@ == name@),
            self.error() is None && !self.is_terminal(name@) ==> self.added(
                &r,
                Addition::Symbol(name@),
            ),
    {
        proof {
            use_type_invariant(&self);
        }
        if self.error.is_some() {
            return self;
        }
        let name = String::from_str(name);
        let GrammarBuilder { symbols, rules, error } = self;
        let mut symbols = symbols;
        match find_symbol(&symbols, &name) {
            Some(i) => {
                if symbols[i].is_terminal() {
                    GrammarBuilder {
                        symbols,
                        rules,
                        error: Some(GrammarError::DuplicateSymbol(name)),
                    }
                } else {
                    let r = GrammarBuilder { symbols, rules, error };
                    proof {
                        assert(!terminal_in(symbols@, name@));
                        assert(nonterminal_in(symbols@, name@));
                    }
                    r
                }
            },
            None => {
                let ghost before = symbols@;
                symbols.push(Symbol::NonTerm(name));
                proof {
                    assert(symbols@.drop_last() =~= before);
                    lemma_symbol_added(before, rules@, symbols@);
                    assert(symbol_shapes(symbols@) =~= symbol_shapes(before).push(
                        SymbolShape::NonTerm(name@),
                    ));
                }
                GrammarBuilder { symbols, rules, error }
            },
        }
    }

    /// Declares the terminal `name` with its pattern. Declaring it again
    /// changes nothing, the first pattern stays; a nonterminal of that name
    /// is a `DuplicateSymbol` failure.
    pub fn terminal(self, name: &str, pattern: Pattern) -> (r: GrammarBuilder)
        ensures
            self.error() is Some ==> r == self,
            self.error() is None && self.is_nonterminal(name@) ==> (r.error() matches Some(
                GrammarError::DuplicateSymbol(n),
            ) && n@ == name@),
            self.error() is None && !self.is_nonterminal(name@) ==> self.added(
                &r,
                Addition::Terminal(name@, pattern),
            ),
    {
        proof {
            use_type_invariant(&self);
        }
        if self.error.is_some() {
            return self;
        }
        let name = String::from_str(name);
        let GrammarBuilder { symbols, rules, error } = self;
        let mut symbols = symbols;
        match find_symbol(&symbols, &name) {
            Some(i) => {
                if symbols[i].is_terminal() {
                    let r = GrammarBuilder { symbols, rules, error };
                    proof {
                        assert(terminal_in(symbols@, name@));
                    }
                    r
                } else {
                    proof {
                        assert(nonterminal_in(symbols@, name@));
                    }
                    GrammarBuilder {
                        symbols,
                        rules,
                        error: Some(GrammarError::DuplicateSymbol(name)),
                    }
                }
            },
            None => {
                let ghost before = symbols@;
                symbols.push(Symbol::Terminal(name, pattern));
                proof {
                    assert(symbols@.drop_last() =~= before);
                    lemma_symbol_added(before, rules@, symbols@);
                    assert(symbol_shapes(symbols@) =~= symbol_shapes(before).push(
                        SymbolShape::Terminal(name@, pattern.shape()),
                    ));
                }
                GrammarBuilder { symbols, rules, error }
            },
        }
    }

    /// Whether `name` is declared, as a nonterminal or as a terminal.
    pub open spec fn declares(&self, name: Seq<char>) -> bool {
        self.is_nonterminal(name) || self.is_terminal(name)
    }

    /// Whether `names[k]` is the first name that is not declared.
    pub open spec fn first_unknown(&self, names: Seq<Seq<char>>, k: int) -> bool {
        &&& 0 <= k < names.len()
        &&& !self.declares(names[k])
        &&& forall|j: int| 0 <= j < k ==> self.declares(#[trigger] names[j])
    }

    /// Adds the rule `head -> body`. A rule that is printed like an earlier
    /// one changes nothing. A head that is no declared nonterminal, or else
    /// the first body name that is not declared, is an `UnknownSymbol`
    /// failure.
    pub fn rule(self, head: &str, body: &[&str]) -> (r: GrammarBuilder)
        ensures
            self.error() is Some ==> r == self,
            self.error() is None && !self.is_nonterminal(head@) ==> (r.error() matches Some(
                GrammarError::UnknownSymbol(n),
            ) && n@ == head@),
            self.error() is None && self.is_nonterminal(head@) ==> forall|k: int|
                self.first_unknown(texts(body@), k) ==> (r.error() matches Some(
                    GrammarError::UnknownSymbol(n),
                ) && n@ == body@[k]@),
            self.error() is None && self.is_nonterminal(head@) && (forall|k: int|
                0 <= k < body@.len() ==> self.declares(#[trigger] texts(body@)[k])) ==> self.added(
                &r,
                Addition::Rule(head@, texts(body@)),
            ),
    {
        proof {
            use_type_invariant(&self);
        }
        if self.error.is_some() {
            return self;
        }
        let head_name = String::from_str(head);
        let GrammarBuilder { symbols, rules, error } = self;
        let mut rules = rules;
        let head_id = match find_symbol(&symbols, &head_name) {
            Some(i) => i,
            None => {
                proof {
                    lemma_kinds(symbols@, head@);
                }
                return GrammarBuilder {
                    symbols,
                    rules,
                    error: Some(GrammarError::UnknownSymbol(head_name)),
                };
            },
        };
        proof {
            lemma_kinds(symbols@, head@);
        }
        if symbols[head_id].is_terminal() {
            return GrammarBuilder {
                symbols,
                rules,
                error: Some(GrammarError::UnknownSymbol(head_name)),
            };
        }
        let mut ids: Vec<usize> = Vec::new();
        let mut k: usize = 0;
        while k < body.len()
            invariant
                k <= body.len(),
                ids.len() == k,
                tables_ok(symbols@, rules@),
                self.symbols == symbols,
                self.rules == rules,
                self.error is None,
                self.is_nonterminal(head@),
                forall|j: int| 0 <= j < k ==> (#[trigger] ids[j]) < symbols.len(),
                forall|j: int| 0 <= j < k ==> symbols[ids[j] as int].name() == body@[j]@,
            decreases body.len() - k,
        {
            let name = String::from_str(body[k]);
            proof {
                lemma_kinds(symbols@, name@);
            }
            match find_symbol(&symbols, &name) {
                Some(i) => {
                    ids.push(i);
                },
                None => {
                    let r = GrammarBuilder {
                        symbols,
                        rules,
                        error: Some(GrammarError::UnknownSymbol(name)),
                    };
                    proof {
                        let names = texts(body@);
                        assert(names[k as int] == name@);
                        assert forall|q: int| self.first_unknown(names, q) implies q == k by {
                            if q < k {
                                lemma_kinds(symbols@, names[q]);
                                assert(symbols[ids[q] as int].name() == names[q]);
                            }
                            if q > k {
                                assert(self.declares(names[k as int]));
                            }
                        }
                    }
                    return r;
                },
            }
            k += 1;
        }
        let label = make_label(&symbols, head_id, &ids);
        proof {
            assert(names_of(symbols@, ids@) =~= texts(body@));
            assert forall|q: int| !self.first_unknown(texts(body@), q) by {
                if 0 <= q < body@.len() {
                    lemma_kinds(symbols@, texts(body@)[q]);
                    assert(symbols[ids[q] as int].name() == texts(body@)[q]);
                }
            }
            assert forall|q: int| 0 <= q < body@.len() implies self.declares(
                #[trigger] texts(body@)[q],
            ) by {
                lemma_kinds(symbols@, texts(body@)[q]);
                assert(symbols[ids[q] as int].name() == texts(body@)[q]);
            }
        }
        match find_label(&rules, &label) {
            Some(_) => {
                let r = GrammarBuilder { symbols, rules, error };
                proof {
                    assert(label_in(rules@, label@));
                }
                r
            },
            None => {
                let ghost before = rules@;
                rules.push(Rule { head: head_id, body: ids, label });
                proof {
                    assert(rules@.drop_last() =~= before);
                    lemma_rule_added(symbols@, before, rules@);
                    let shapes = symbol_shapes(symbols@);
                    lemma_place(symbols@, head_id, head@);
                    assert forall|q: int| 0 <= q < ids.len() implies ids[q] == place(
                        shapes,
                        #[trigger] texts(body@)[q],
                    ) by {
                        lemma_place(symbols@, ids[q], texts(body@)[q]);
                    }
                    let made = crate::equality::rule_shape(shapes, head@, texts(body@));
                    assert(made.body =~= ids@);
                    assert(rule_shapes(rules@) =~= rule_shapes(before).push(made));
                }
                GrammarBuilder { symbols, rules, error }
            },
        }
    }

    /// Whether some rule has the head `name`.
    pub open spec fn defines(&self, name: Seq<char>) -> bool {
        exists|body: Seq<Seq<char>>| self.has_rule(name, body)
    }

    /// Freezes the builder into a grammar with the start symbol `start`.
    /// A remembered failure is reported first; then a start symbol that was
    /// never declared (`UnknownStart`); then one that is no nonterminal with
    /// at least one rule (`NoRulesForStart`).
    pub fn into_grammar(self, start: &str) -> (r: Result<Grammar, GrammarError>)
        ensures
            self.error() is Some ==> r == Err::<Grammar, GrammarError>(self.error().unwrap()),
            self.error() is None && !self.declares(start@) ==> (r matches Err(
                GrammarError::UnknownStart(n),
            ) && n@ == start@),
            self.error() is None && self.declares(start@) && !(self.is_nonterminal(start@)
                && self.defines(start@)) ==> (r matches Err(GrammarError::NoRulesForStart(n))
                && n@ == start@),
            self.error() is None && self.is_nonterminal(start@) && self.defines(start@) ==> (
            r matches Ok(g) && {
                &&& g.wf()
                &&& g.start_name() == start@
                &&& forall|n: Seq<char>| g.is_nonterminal(n) == self.is_nonterminal(n)
                &&& forall|n: Seq<char>| g.is_terminal(n) == self.is_terminal(n)
                &&& forall|n: Seq<char>, l: Seq<char>|
                    g.terminal_accepts(n, l) == self.terminal_accepts(n, l)
                &&& forall|h: Seq<char>, b: Seq<Seq<char>>| g.has_rule(h, b) == self.has_rule(h, b)
                &&& g.shape() == (GrammarShape {
                    symbols: self.symbols_shape(),
                    rules: self.rules_shape(),
                    start: place(self.symbols_shape(), start@),
                })
            }),
    {
        proof {
            use_type_invariant(&self);
            lemma_heads(self.symbols@, self.rules@, start@);
            if head_in(self.symbols@, self.rules@, start@) {
                let body = choose|body: Seq<Seq<char>>|
                    rule_in(self.symbols@, self.rules@, start@, body);
                assert(self.has_rule(start@, body));
            }
            if self.defines(start@) {
                let body = choose|body: Seq<Seq<char>>| self.has_rule(start@, body);
                assert(rule_in(self.symbols@, self.rules@, start@, body));
            }
            assert(self.defines(start@) == head_in(self.symbols@, self.rules@, start@));
        }
        let GrammarBuilder { symbols, rules, error } = self;
        if let Some(e) = error {
            return Err(e);
        }
        let name = String::from_str(start);
        proof {
            lemma_kinds(symbols@, start@);
        }
        let start_id = match find_symbol(&symbols, &name) {
            Some(i) => i,
            None => {
                return Err(GrammarError::UnknownStart(name));
            },
        };
        if symbols[start_id].is_terminal() {
            proof {
                assert forall|i: int|
                    0 <= i < symbols.len() && (#[trigger] symbols[i]).name()
                        == start@ implies !(symbols[i] is NonTerm) by {
                    assert(i == start_id);
                }
            }
            return Err(GrammarError::NoRulesForStart(name));
        }
        let mut r: usize = 0;
        let mut found = false;
        while r < rules.len() && !found
            invariant
                r <= rules.len(),
                start_id < symbols.len(),
                symbols[start_id as int] is NonTerm,
                symbols[start_id as int].name() == start@,
                name@ == start@,
                self.symbols == symbols,
                self.rules == rules,
                self.error is None,
                tables_ok(symbols@, rules@),
                !found ==> forall|q: int| 0 <= q < r ==> (#[trigger] rules[q]).head != start_id,
                found ==> exists|q: int| 0 <= q < rules.len() && (#[trigger] rules[q]).head == start_id,
            decreases rules.len() - r, if found { 0nat } else { 1nat },
        {
            if rules[r].head == start_id {
                found = true;
            } else {
                r += 1;
            }
        }
        if !found {
            proof {
                assert forall|q: int| 0 <= q < rules.len() implies symbols[(
                #[trigger] rules[q]).head as int].name() != start@ by {
                    assert(rule_ok(symbols@, rules[q]));
                }
            }
            return Err(GrammarError::NoRulesForStart(name));
        }
        proof {
            let q = choose|q: int| 0 <= q < rules.len() && (#[trigger] rules[q]).head == start_id;
            assert(symbols[rules[q].head as int].name() == start@);
            assert(nonterminal_in(symbols@, start@));
        }
        let (nullable, chosen, rank) = find_nullable(&symbols, &rules);
        proof {
            let q = choose|q: int| 0 <= q < rules.len() && (#[trigger] rules[q]).head == start_id;
            let g = Grammar { symbols, rules, start: start_id, nullable, chosen };
            assert(g.rules[q].head == g.start);
            assert(g.ranked(rank@));
            lemma_place(symbols@, start_id, start@);
        }
        Ok(Grammar { symbols, rules, start: start_id, nullable, chosen })
    }
}

/// A name is the head of some rule exactly if some rule has it for its
/// head with some body.
pub proof fn lemma_heads(symbols: Seq<Symbol>, rules: Seq<Rule>, head: Seq<char>)
    ensures
        head_in(symbols, rules, head) == exists|body: Seq<Seq<char>>|
            rule_in(symbols, rules, head, body),
{
    if head_in(symbols, rules, head) {
        let r = choose|r: int|
            0 <= r < rules.len() && symbols[(#[trigger] rules[r]).head as int].name() == head;
        assert(rule_in(symbols, rules, head, names_of(symbols, rules[r].body@)));
    }
    if exists|body: Seq<Seq<char>>| rule_in(symbols, rules, head, body) {
        let body = choose|body: Seq<Seq<char>>| rule_in(symbols, rules, head, body);
        let r = choose|r: int|
            0 <= r < rules.len() && symbols[(#[trigger] rules[r]).head as int].name() == head
                && names_of(symbols, rules[r].body@) == body;
        assert(symbols[rules[r].head as int].name() == head);
    }
}

/// Appending a symbol with a new name keeps the tables sound and changes
/// the name of no rule.
pub proof fn lemma_symbol_added(before: Seq<Symbol>, rules: Seq<Rule>, after: Seq<Symbol>)
    requires
        tables_ok(before, rules),
        after.len() == before.len() + 1,
        after.drop_last() == before,
        !declared(before, after.last().name()),
    ensures
        tables_ok(after, rules),
        forall|n: Seq<char>|
            nonterminal_in(after, n) == (nonterminal_in(before, n) || (after.last() is NonTerm
                && n == after.last().name())),
        forall|n: Seq<char>|
            terminal_in(after, n) == (terminal_in(before, n) || (after.last() is Terminal && n
                == after.last().name())),
        forall|n: Seq<char>, l: Seq<char>|
            accepted_in(after, n, l) == (accepted_in(before, n, l) || (n == after.last().name()
                && after.last().accepts(l))),
        forall|h: Seq<char>, b: Seq<Seq<char>>|
            rule_in(after, rules, h, b) == rule_in(before, rules, h, b),
{
    let last = before.len() as int;
    assert forall|i: int| 0 <= i < before.len() implies #[trigger] after[i] == before[i] by {
        assert(after.drop_last()[i] == after[i]);
    }
    assert forall|r: int| 0 <= r < rules.len() implies names_of(after, (#[trigger] rules[r]).body@)
        == names_of(before, rules[r].body@) && after[rules[r].head as int]
        == before[rules[r].head as int] by {
        assert(rule_ok(before, rules[r]));
        assert(names_of(after, rules[r].body@) =~= names_of(before, rules[r].body@));
    }
    assert forall|i: int, j: int| 0 <= i < j < after.len() implies (#[trigger] after[i]).name() != (
    #[trigger] after[j]).name() by {
        if j == last {
            assert(before[i].name() != after.last().name());
        }
    }
    assert forall|r: int| 0 <= r < rules.len() implies rule_ok(after, #[trigger] rules[r]) by {
        assert(rule_ok(before, rules[r]));
    }
    assert forall|n: Seq<char>|
        nonterminal_in(after, n) == (nonterminal_in(before, n) || (after.last() is NonTerm && n
            == after.last().name())) by {
        if nonterminal_in(before, n) {
            let i = choose|i: int|
                0 <= i < before.len() && (#[trigger] before[i]).name() == n && before[i] is NonTerm;
            assert(after[i].name() == n);
        }
        if after.last() is NonTerm && n == after.last().name() {
            assert(after[last].name() == n);
        }
        if nonterminal_in(after, n) {
            let i = choose|i: int|
                0 <= i < after.len() && (#[trigger] after[i]).name() == n && after[i] is NonTerm;
            if i < last {
                assert(before[i].name() == n);
            }
        }
    }
    assert forall|n: Seq<char>|
        terminal_in(after, n) == (terminal_in(before, n) || (after.last() is Terminal && n
            == after.last().name())) by {
        if terminal_in(before, n) {
            let i = choose|i: int|
                0 <= i < before.len() && (#[trigger] before[i]).name() == n
                    && before[i] is Terminal;
            assert(after[i].name() == n);
        }
        if after.last() is Terminal && n == after.last().name() {
            assert(after[last].name() == n);
        }
        if terminal_in(after, n) {
            let i = choose|i: int|
                0 <= i < after.len() && (#[trigger] after[i]).name() == n && after[i] is Terminal;
            if i < last {
                assert(before[i].name() == n);
            }
        }
    }
    assert forall|n: Seq<char>, l: Seq<char>|
        accepted_in(after, n, l) == (accepted_in(before, n, l) || (n == after.last().name()
            && after.last().accepts(l))) by {
        if accepted_in(before, n, l) {
            let i = choose|i: int|
                0 <= i < before.len() && (#[trigger] before[i]).name() == n && before[i].accepts(
                    l,
                );
            assert(after[i].name() == n);
        }
        if n == after.last().name() && after.last().accepts(l) {
            assert(after[last].name() == n);
        }
        if accepted_in(after, n, l) {
            let i = choose|i: int|
                0 <= i < after.len() && (#[trigger] after[i]).name() == n && after[i].accepts(l);
            if i < last {
                assert(before[i].name() == n);
            }
        }
    }
    assert forall|h: Seq<char>, b: Seq<Seq<char>>|
        rule_in(after, rules, h, b) == rule_in(before, rules, h, b) by {
        if rule_in(after, rules, h, b) {
            let r = choose|r: int|
                0 <= r < rules.len() && after[(#[trigger] rules[r]).head as int].name() == h
                    && names_of(after, rules[r].body@) == b;
            assert(before[rules[r].head as int].name() == h);
        }
        if rule_in(before, rules, h, b) {
            let r = choose|r: int|
                0 <= r < rules.len() && before[(#[trigger] rules[r]).head as int].name() == h
                    && names_of(before, rules[r].body@) == b;
            assert(after[rules[r].head as int].name() == h);
        }
    }
}

/// A name is declared exactly if it names a nonterminal or a terminal.
pub proof fn lemma_kinds(symbols: Seq<Symbol>, name: Seq<char>)
    ensures
        declared(symbols, name) == (nonterminal_in(symbols, name) || terminal_in(symbols, name)),
{
    if declared(symbols, name) {
        let i = choose|i: int| 0 <= i < symbols.len() && (#[trigger] symbols[i]).name() == name;
        if symbols[i] is NonTerm {
            assert(nonterminal_in(symbols, name));
        } else {
            assert(terminal_in(symbols, name));
        }
    }
}

/// Appending a sound rule with a new printed form keeps the tables sound
/// and adds that rule and that printed form, nothing else.
pub proof fn lemma_rule_added(symbols: Seq<Symbol>, before: Seq<Rule>, after: Seq<Rule>)
    requires
        tables_ok(symbols, before),
        after.len() == before.len() + 1,
        after.drop_last() == before,
        rule_ok(symbols, after.last()),
        !label_in(before, after.last().label@),
    ensures
        tables_ok(symbols, after),
        forall|h: Seq<char>, b: Seq<Seq<char>>|
            rule_in(symbols, after, h, b) == (rule_in(symbols, before, h, b) || (h
                == symbols[after.last().head as int].name() && b == names_of(
                symbols,
                after.last().body@,
            ))),
        forall|l: Seq<char>| label_in(after, l) == (label_in(before, l) || l == after.last().label@),
{
    let last = before.len() as int;
    assert forall|i: int| 0 <= i < before.len() implies #[trigger] after[i] == before[i] by {
        assert(after.drop_last()[i] == after[i]);
    }
    assert forall|r: int, q: int| 0 <= r < q < after.len() implies (#[trigger] after[r]).label@ != (
    #[trigger] after[q]).label@ by {
        if q == last {
            assert(before[r].label@ != after.last().label@);
        }
    }
    assert forall|r: int| 0 <= r < after.len() implies rule_ok(symbols, #[trigger] after[r]) by {
        if r < last {
            assert(rule_ok(symbols, before[r]));
        }
    }
    assert forall|h: Seq<char>, b: Seq<Seq<char>>|
        rule_in(symbols, after, h, b) == (rule_in(symbols, before, h, b) || (h
            == symbols[after.last().head as int].name() && b == names_of(
            symbols,
            after.last().body@,
        ))) by {
        if rule_in(symbols, before, h, b) {
            let r = choose|r: int|
                0 <= r < before.len() && symbols[(#[trigger] before[r]).head as int].name() == h
                    && names_of(symbols, before[r].body@) == b;
            assert(symbols[after[r].head as int].name() == h);
        }
        if h == symbols[after.last().head as int].name() && b == names_of(
            symbols,
            after.last().body@,
        ) {
            assert(symbols[after[last].head as int].name() == h);
        }
        if rule_in(symbols, after, h, b) {
            let r = choose|r: int|
                0 <= r < after.len() && symbols[(#[trigger] after[r]).head as int].name() == h
                    && names_of(symbols, after[r].body@) == b;
            if r < last {
                assert(symbols[before[r].head as int].name() == h);
            }
        }
    }
    assert forall|l: Seq<char>|
        label_in(after, l) == (label_in(before, l) || l == after.last().label@) by {
        if label_in(before, l) {
            let r = choose|r: int| 0 <= r < before.len() && (#[trigger] before[r]).label@ == l;
            assert(after[r].label@ == l);
        }
        if l == after.last().label@ {
            assert(after[last].label@ == l);
        }
        if label_in(after, l) {
            let r = choose|r: int| 0 <= r < after.len() && (#[trigger] after[r]).label@ == l;
            if r < last {
                assert(before[r].label@ == l);
            }
        }
    }
}

/// Whether some rule has the head called `head`.
pub open spec fn head_in(symbols: Seq<Symbol>, rules: Seq<Rule>, head: Seq<char>) -> bool {
    exists|r: int| 0 <= r < rules.len() && symbols[(#[trigger] rules[r]).head as int].name() == head
}

/// A context-free grammar: symbols with distinct names, rules over them, a
/// start symbol that has at least one rule, and for every symbol whether it
/// derives the empty string.
#[derive(Debug)]
pub struct Grammar {
    pub(crate) symbols: Vec<Symbol>,
    pub(crate) rules: Vec<Rule>,
    pub(crate) start: usize,
    pub(crate) nullable: Vec<bool>,
    pub(crate) chosen: Vec<usize>,
}

impl Grammar {
    /// The grammar's invariant.
    #[verifier::type_invariant]
    pub open(crate) spec fn wf(&self) -> bool {
        &&& tables_ok(self.symbols@, self.rules@)
        &&& self.start < self.symbols.len()
        &&& self.symbols[self.start as int] is NonTerm
        &&& exists|r: int| 0 <= r < self.rules.len() && (#[trigger] self.rules[r]).head == self.start
        &&& exists|rank: Seq<nat>| self.ranked(rank)
    }

    /// Whether `rank` gives every symbol the height of its shortest
    /// derivation of the empty string, or zero where it has none.
    pub(crate) open spec fn ranked(&self, rank: Seq<nat>) -> bool {
        rank.len() == self.symbols.len() && ranks_ok(
            self.rules@,
            self.nullable@,
            self.chosen@,
            rank,
        )
    }

    /// For every symbol the height of its shortest derivation of the empty
    /// string, or zero where it has none.
    pub(crate) open spec fn ranks(&self) -> Seq<nat> {
        choose|rank: Seq<nat>| self.ranked(rank)
    }

    /// The name of the start symbol.
    pub open(crate) spec fn start_name(&self) -> Seq<char> {
        self.symbols[self.start as int].name()
    }

    /// Whether `name` is a nonterminal of the grammar.
    pub open(crate) spec fn is_nonterminal(&self, name: Seq<char>) -> bool {
        nonterminal_in(self.symbols@, name)
    }

    /// Whether `name` is a terminal of the grammar.
    pub open(crate) spec fn is_terminal(&self, name: Seq<char>) -> bool {
        terminal_in(self.symbols@, name)
    }

    /// Whether `name` is a terminal of the grammar that matches `lexeme`.
    pub open(crate) spec fn terminal_accepts(&self, name: Seq<char>, lexeme: Seq<char>) -> bool {
        accepted_in(self.symbols@, name, lexeme)
    }

    /// Whether the grammar has the rule with this head and body.
    pub open(crate) spec fn has_rule(&self, head: Seq<char>, body: Seq<Seq<char>>) -> bool {
        rule_in(self.symbols@, self.rules@, head, body)
    }

    /// Whether `tree` is a derivation tree for the symbol `name`: a leaf for
    /// a terminal holds a lexeme that the terminal matches; a node for a
    /// nonterminal carries the printed form of one of its rules and has one
    /// child per body symbol, each a derivation tree for that symbol.
    pub open spec fn derives(&self, tree: TreeView, name: Seq<char>) -> bool
        decreases tree,
    {
        match tree {
            TreeView::Leaf(terminal, lexeme) => terminal == name && self.terminal_accepts(
                name,
                lexeme,
            ),
            TreeView::Node(label, kids) => exists|body: Seq<Seq<char>>|
                #![trigger self.has_rule(name, body)]
                {
                    &&& self.has_rule(name, body)
                    &&& label == rule_label(name, body)
                    &&& kids.len() == body.len()
                    &&& forall|i: int|
                        0 <= i < kids.len() ==> self.derives(#[trigger] kids[i], body[i])
                },
        }
    }

    /// Whether `tree` is a derivation tree for the start symbol whose leaves
    /// spell `input`.
    pub open spec fn parses(&self, tree: TreeView, input: Seq<Seq<char>>) -> bool {
        self.derives(tree, self.start_name()) && tree.fringe() == input
    }

    /// Whether `input` is a sentence of the grammar.
    pub open spec fn generates(&self, input: Seq<Seq<char>>) -> bool {
        exists|tree: TreeView| self.parses(tree, input)
    }

    /// Whether `other` has the same start symbol, the same nonterminals,
    /// the same terminals with patterns that match the same lexemes, and
    /// the same rules, in whatever order they were added.
    pub open spec fn same_content(&self, other: &Grammar) -> bool {
        &&& self.start_name() == other.start_name()
        &&& forall|n: Seq<char>| self.is_nonterminal(n) == other.is_nonterminal(n)
        &&& forall|n: Seq<char>| self.is_terminal(n) == other.is_terminal(n)
        &&& forall|n: Seq<char>, l: Seq<char>|
            self.terminal_accepts(n, l) == other.terminal_accepts(n, l)
        &&& forall|h: Seq<char>, b: Seq<Seq<char>>| self.has_rule(h, b) == other.has_rule(h, b)
    }

    /// Grammars with the same content have the same derivation trees.
    pub proof fn law_same_trees(&self, other: &Grammar, tree: TreeView, name: Seq<char>)
        requires
            self.same_content(other),
        ensures
            self.derives(tree, name) == other.derives(tree, name),
        decreases tree,
    {
        match tree {
            TreeView::Leaf(_, _) => {},
            TreeView::Node(label, kids) => {
                if self.derives(tree, name) {
                    let body = choose|body: Seq<Seq<char>>|
                        #![trigger self.has_rule(name, body)]
                        {
                            &&& self.has_rule(name, body)
                            &&& label == rule_label(name, body)
                            &&& kids.len() == body.len()
                            &&& forall|i: int|
                                0 <= i < kids.len() ==> self.derives(#[trigger] kids[i], body[i])
                        };
                    assert forall|i: int| 0 <= i < kids.len() implies other.derives(
                        #[trigger] kids[i],
                        body[i],
                    ) by {
                        self.law_same_trees(other, kids[i], body[i]);
                    }
                    assert(other.has_rule(name, body));
                }
                if other.derives(tree, name) {
                    let body = choose|body: Seq<Seq<char>>|
                        #![trigger other.has_rule(name, body)]
                        {
                            &&& other.has_rule(name, body)
                            &&& label == rule_label(name, body)
                            &&& kids.len() == body.len()
                            &&& forall|i: int|
                                0 <= i < kids.len() ==> other.derives(#[trigger] kids[i], body[i])
                        };
                    assert forall|i: int| 0 <= i < kids.len() implies self.derives(
                        #[trigger] kids[i],
                        body[i],
                    ) by {
                        self.law_same_trees(other, kids[i], body[i]);
                    }
                    assert(self.has_rule(name, body));
                }
            },
        }
    }

    /// Grammars with the same content, in whatever order their symbols and
    /// rules were added, generate the same sentences and have the same
    /// parses of every input; so they have the same tidy parses, which are
    /// the trees that `eval_all` returns.
    pub proof fn law_order_independent(&self, other: &Grammar, tree: TreeView, input: Seq<Seq<char>>)
        requires
            self.same_content(other),
        ensures
            self.generates(input) == other.generates(input),
            self.parses(tree, input) == other.parses(tree, input),
            (self.parses(tree, input) && tidy_parse(tree, input.len())) == (other.parses(
                tree,
                input,
            ) && tidy_parse(tree, input.len())),
    {
        self.law_same_trees(other, tree, self.start_name());
        if self.generates(input) {
            let t = choose|t: TreeView| self.parses(t, input);
            self.law_same_trees(other, t, self.start_name());
            assert(other.parses(t, input));
        }
        if other.generates(input) {
            let t = choose|t: TreeView| other.parses(t, input);
            self.law_same_trees(other, t, self.start_name());
            assert(self.parses(t, input));
        }
    }

    /// The name of the symbol with index `id`.
    pub open(crate) spec fn sym_name(&self, id: int) -> Seq<char> {
        self.symbols[id].name()
    }

    /// The names of the body symbols of rule `r`.
    pub open(crate) spec fn body_names(&self, r: int) -> Seq<Seq<char>> {
        names_of(self.symbols@, self.rules[r].body@)
    }
}

impl Grammar {
    /// Two symbols with one name are one symbol.
    pub(crate) proof fn lemma_name_unique(&self, i: int, j: int)
        requires
            self.wf(),
            0 <= i < self.symbols.len(),
            0 <= j < self.symbols.len(),
            self.sym_name(i) == self.sym_name(j),
        ensures
            i == j,
    {
        if i < j {
            assert(self.symbols[i].name() != self.symbols[j].name());
        }
        if j < i {
            assert(self.symbols[j].name() != self.symbols[i].name());
        }
    }

    /// Every rule of the table is a rule of the grammar under its names.
    pub(crate) proof fn lemma_rule_named(&self, r: int)
        requires
            self.wf(),
            0 <= r < self.rules.len(),
        ensures
            self.has_rule(self.sym_name(self.rules[r].head as int), self.body_names(r)),
            self.rules[r].label@ == rule_label(
                self.sym_name(self.rules[r].head as int),
                self.body_names(r),
            ),
            self.rules[r].head < self.symbols.len(),
            self.symbols[self.rules[r].head as int] is NonTerm,
            self.body_names(r).len() == self.rules[r].body.len(),
            forall|k: int|
                0 <= k < self.rules[r].body.len() ==> (#[trigger] self.rules[r].body[k])
                    < self.symbols.len(),
    {
        assert(rule_ok(self.symbols@, self.rules[r]));
        assert(self.symbols[self.rules[r].head as int].name() == self.sym_name(
            self.rules[r].head as int,
        ));
    }

    /// Children that derive the body symbols of a rule make a node that
    /// derives its head.
    pub(crate) proof fn lemma_node(&self, r: int, kids: Seq<TreeView>)
        requires
            self.wf(),
            0 <= r < self.rules.len(),
            kids.len() == self.rules[r].body.len(),
            forall|k: int|
                0 <= k < kids.len() ==> self.derives(
                    #[trigger] kids[k],
                    self.sym_name(self.rules[r].body[k] as int),
                ),
        ensures
            self.derives(
                TreeView::Node(self.rules[r].label@, kids),
                self.sym_name(self.rules[r].head as int),
            ),
    {
        self.lemma_rule_named(r);
        let body = self.body_names(r);
        let name = self.sym_name(self.rules[r].head as int);
        assert forall|i: int| 0 <= i < kids.len() implies self.derives(
            #[trigger] kids[i],
            body[i],
        ) by {
            assert(self.derives(kids[i], self.sym_name(self.rules[r].body[i] as int)));
        }
        assert(self.has_rule(name, body));
    }

    /// A node that derives a symbol was made by one of that symbol's rules.
    pub(crate) proof fn lemma_node_rule(&self, label: Seq<char>, kids: Seq<TreeView>, x: int) -> (r:
        int)
        requires
            self.wf(),
            0 <= x < self.symbols.len(),
            self.derives(TreeView::Node(label, kids), self.sym_name(x)),
        ensures
            0 <= r < self.rules.len(),
            self.rules[r].head == x,
            self.rules[r].label@ == label,
            kids.len() == self.rules[r].body.len(),
            forall|k: int|
                0 <= k < kids.len() ==> self.derives(
                    #[trigger] kids[k],
                    self.sym_name(self.rules[r].body[k] as int),
                ),
    {
        let name = self.sym_name(x);
        let body = choose|body: Seq<Seq<char>>|
            #![trigger self.has_rule(name, body)]
            {
                &&& self.has_rule(name, body)
                &&& label == rule_label(name, body)
                &&& kids.len() == body.len()
                &&& forall|i: int| 0 <= i < kids.len() ==> self.derives(#[trigger] kids[i], body[i])
            };
        let r = choose|r: int|
            0 <= r < self.rules.len() && self.symbols[(#[trigger] self.rules[r]).head as int].name()
                == name && names_of(self.symbols@, self.rules[r].body@) == body;
        self.lemma_rule_named(r);
        self.lemma_name_unique(self.rules[r].head as int, x);
        assert forall|k: int| 0 <= k < kids.len() implies self.derives(
            #[trigger] kids[k],
            self.sym_name(self.rules[r].body[k] as int),
        ) by {
            assert(self.derives(kids[k], body[k]));
        }
        r
    }

    /// A leaf derives a symbol exactly if the symbol is a terminal of that
    /// name which matches the lexeme.
    pub(crate) proof fn lemma_leaf(&self, terminal: Seq<char>, lexeme: Seq<char>, x: int)
        requires
            self.wf(),
            0 <= x < self.symbols.len(),
        ensures
            self.derives(TreeView::Leaf(terminal, lexeme), self.sym_name(x)) == (terminal
                == self.sym_name(x) && self.symbols[x].accepts(lexeme)),
    {
        let name = self.sym_name(x);
        if self.terminal_accepts(name, lexeme) {
            let i = choose|i: int|
                0 <= i < self.symbols.len() && (#[trigger] self.symbols[i]).name() == name
                    && self.symbols[i].accepts(lexeme);
            self.lemma_name_unique(i, x);
        }
        if self.symbols[x].accepts(lexeme) {
            assert(self.symbols[x].name() == name);
        }
    }
}

} // verus!
