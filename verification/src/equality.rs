//! Structural equality of grammars.
use crate::grammar::{
    names_of, rule_label, rule_ok, tables_ok, Grammar, GrammarBuilder, Rule, Symbol,
};
use crate::nullable::{body_within, chosen_ok, closed_below, lemma_ranks_unique, ranks_ok};
use crate::pattern::Pattern;
use vstd::prelude::*;
use vstd::std_specs::cmp::PartialEqSpecImpl;

verus! {

/// What a pattern is made of.
pub enum PatternShape {
    Exact(Seq<char>),
    AnyOf(Seq<Seq<char>>),
    CharsIn(Seq<char>),
    CharIn(Seq<char>),
    SubstringOf(Seq<char>),
    Alphabetic,
}

/// What a symbol is made of.
pub enum SymbolShape {
    NonTerm(Seq<char>),
    Terminal(Seq<char>, PatternShape),
}

/// What a rule is made of.
pub struct RuleShape {
    pub head: usize,
    pub body: Seq<usize>,
    pub label: Seq<char>,
}

/// What a grammar is made of: its symbols and its rules in the order in
/// which they were added, and the start symbol.
pub struct GrammarShape {
    pub symbols: Seq<SymbolShape>,
    pub rules: Seq<RuleShape>,
    pub start: usize,
}

/// The texts of words.
pub open spec fn word_texts(words: Seq<String>) -> Seq<Seq<char>> {
    Seq::new(words.len(), |i: int| words[i]@)
}

/// Whether two lists hold the same words in the same order.
pub fn same_words(first: &Vec<String>, second: &Vec<String>) -> (r: bool)
    ensures
        r == (word_texts(first@) == word_texts(second@)),
{
    if first.len() != second.len() {
        assert(word_texts(first@).len() != word_texts(second@).len());
        return false;
    }
    let mut i: usize = 0;
    while i < first.len()
        invariant
            i <= first.len(),
            first.len() == second.len(),
            forall|j: int| 0 <= j < i ==> first[j]@ == second[j]@,
        decreases first.len() - i,
    {
        if !(first[i] == second[i]) {
            assert(word_texts(first@)[i as int] != word_texts(second@)[i as int]);
            return false;
        }
        i += 1;
    }
    assert(word_texts(first@) =~= word_texts(second@));
    true
}

/// Whether two lists hold the same numbers in the same order.
pub fn same_numbers(first: &Vec<usize>, second: &Vec<usize>) -> (r: bool)
    ensures
        r == (first@ == second@),
{
    if first.len() != second.len() {
        return false;
    }
    let mut i: usize = 0;
    while i < first.len()
        invariant
            i <= first.len(),
            first.len() == second.len(),
            forall|j: int| 0 <= j < i ==> first[j] == second[j],
        decreases first.len() - i,
    {
        if first[i] != second[i] {
            return false;
        }
        i += 1;
    }
    assert(first@ =~= second@);
    true
}

impl Pattern {
    /// What the pattern is made of.
    pub open spec fn shape(&self) -> PatternShape {
        match self {
            Pattern::Exact(text) => PatternShape::Exact(text@),
            Pattern::AnyOf(words) => PatternShape::AnyOf(word_texts(words@)),
            Pattern::CharsIn(set) => PatternShape::CharsIn(set@),
            Pattern::CharIn(set) => PatternShape::CharIn(set@),
            Pattern::SubstringOf(text) => PatternShape::SubstringOf(text@),
            Pattern::Alphabetic => PatternShape::Alphabetic,
        }
    }

    /// Whether both patterns are made of the same.
    pub fn same(&self, other: &Pattern) -> (r: bool)
        ensures
            r == (self.shape() == other.shape()),
    {
        match (self, other) {
            (Pattern::Exact(a), Pattern::Exact(b)) => *a == *b,
            (Pattern::AnyOf(a), Pattern::AnyOf(b)) => same_words(a, b),
            (Pattern::CharsIn(a), Pattern::CharsIn(b)) => *a == *b,
            (Pattern::CharIn(a), Pattern::CharIn(b)) => *a == *b,
            (Pattern::SubstringOf(a), Pattern::SubstringOf(b)) => *a == *b,
            (Pattern::Alphabetic, Pattern::Alphabetic) => true,
            _ => false,
        }
    }

    /// Patterns that are made of the same match the same lexemes.
    pub proof fn lemma_same_shape(&self, other: &Pattern, lexeme: Seq<char>)
        requires
            self.shape() == other.shape(),
        ensures
            self.accepts(lexeme) == other.accepts(lexeme),
    {
        match (self, other) {
            (Pattern::AnyOf(a), Pattern::AnyOf(b)) => {
                let first = word_texts(a@);
                let second = word_texts(b@);
                assert(first == second);
                assert(first.len() == a.len() && second.len() == b.len());
                if self.accepts(lexeme) {
                    let i = choose|i: int| 0 <= i < a.len() && (#[trigger] a[i])@ == lexeme;
                    assert(first[i] == second[i]);
                    assert(b[i]@ == lexeme);
                }
                if other.accepts(lexeme) {
                    let i = choose|i: int| 0 <= i < b.len() && (#[trigger] b[i])@ == lexeme;
                    assert(first[i] == second[i]);
                    assert(a[i]@ == lexeme);
                }
            },
            _ => {},
        }
    }
}

impl Symbol {
    /// What the symbol is made of.
    pub open spec fn shape(&self) -> SymbolShape {
        match self {
            Symbol::NonTerm(name) => SymbolShape::NonTerm(name@),
            Symbol::Terminal(name, pattern) => SymbolShape::Terminal(name@, pattern.shape()),
        }
    }

    /// Whether both symbols are made of the same.
    pub fn same(&self, other: &Symbol) -> (r: bool)
        ensures
            r == (self.shape() == other.shape()),
    {
        match (self, other) {
            (Symbol::NonTerm(a), Symbol::NonTerm(b)) => *a == *b,
            (Symbol::Terminal(a, p), Symbol::Terminal(b, q)) => *a == *b && p.same(q),
            _ => false,
        }
    }
}

impl Rule {
    /// What the rule is made of.
    pub open spec fn shape(&self) -> RuleShape {
        RuleShape { head: self.head, body: self.body@, label: self.label@ }
    }

    /// Whether both rules are made of the same.
    pub fn same(&self, other: &Rule) -> (r: bool)
        ensures
            r == (self.shape() == other.shape()),
    {
        self.head == other.head && same_numbers(&self.body, &other.body) && self.label
            == other.label
    }
}

impl SymbolShape {
    /// The symbol's name.
    pub open spec fn name(self) -> Seq<char> {
        match self {
            SymbolShape::NonTerm(name) => name,
            SymbolShape::Terminal(name, _) => name,
        }
    }
}

/// What the symbols are made of, one by one.
pub open spec fn symbol_shapes(symbols: Seq<Symbol>) -> Seq<SymbolShape> {
    Seq::new(symbols.len(), |i: int| symbols[i].shape())
}

/// What the rules are made of, one by one.
pub open spec fn rule_shapes(rules: Seq<Rule>) -> Seq<RuleShape> {
    Seq::new(rules.len(), |i: int| rules[i].shape())
}

/// The position of the symbol called `name` among `symbols`.
pub open spec fn place(symbols: Seq<SymbolShape>, name: Seq<char>) -> usize {
    choose|i: usize| i < symbols.len() && (#[trigger] symbols[i as int]).name() == name
}

/// The positions of the symbols called `names`.
pub open spec fn places(symbols: Seq<SymbolShape>, names: Seq<Seq<char>>) -> Seq<usize> {
    Seq::new(names.len(), |k: int| place(symbols, names[k]))
}

/// What the rule `head -> body` over `symbols` is made of.
pub open spec fn rule_shape(
    symbols: Seq<SymbolShape>,
    head: Seq<char>,
    body: Seq<Seq<char>>,
) -> RuleShape {
    RuleShape {
        head: place(symbols, head),
        body: places(symbols, body),
        label: rule_label(head, body),
    }
}

/// Among symbols with distinct names, the place of a name is where the
/// symbol of that name stands.
pub proof fn lemma_place(symbols: Seq<Symbol>, i: usize, name: Seq<char>)
    requires
        forall|a: int, b: int|
            0 <= a < b < symbols.len() ==> (#[trigger] symbols[a]).name() != (
            #[trigger] symbols[b]).name(),
        i < symbols.len(),
        symbols[i as int].name() == name,
    ensures
        place(symbol_shapes(symbols), name) == i,
{
    let shapes = symbol_shapes(symbols);
    assert(shapes[i as int].name() == name);
    let j = place(shapes, name);
    assert(j < shapes.len() && shapes[j as int].name() == name);
    assert(symbols[j as int].name() == name);
    if j < i {
        assert(symbols[j as int].name() != symbols[i as int].name());
    }
    if i < j {
        assert(symbols[i as int].name() != symbols[j as int].name());
    }
}

impl GrammarBuilder {
    /// What the symbols are made of, in the order in which they were
    /// added.
    pub open(crate) spec fn symbols_shape(&self) -> Seq<SymbolShape> {
        symbol_shapes(self.symbols@)
    }

    /// What the rules are made of, in the order in which they were added.
    pub open(crate) spec fn rules_shape(&self) -> Seq<RuleShape> {
        rule_shapes(self.rules@)
    }
}

impl Grammar {
    /// What the grammar is made of.
    pub open(crate) spec fn shape(&self) -> GrammarShape {
        GrammarShape {
            symbols: symbol_shapes(self.symbols@),
            rules: rule_shapes(self.rules@),
            start: self.start,
        }
    }

    /// Grammars that are made of the same have the same content.
    pub proof fn law_equal_content(&self, other: &Grammar)
        requires
            self.wf(),
            other.wf(),
            self.shape() == other.shape(),
        ensures
            self.same_content(other),
    {
        self.lemma_shape_content(other);
        other.lemma_shape_content(self);
    }

    /// What a grammar has, a grammar that is made of the same has too.
    proof fn lemma_shape_content(&self, other: &Grammar)
        requires
            self.wf(),
            other.wf(),
            self.shape() == other.shape(),
        ensures
            self.start_name() == other.start_name(),
            forall|n: Seq<char>| self.is_nonterminal(n) ==> other.is_nonterminal(n),
            forall|n: Seq<char>| self.is_terminal(n) ==> other.is_terminal(n),
            forall|n: Seq<char>, l: Seq<char>|
                self.terminal_accepts(n, l) ==> other.terminal_accepts(n, l),
            forall|h: Seq<char>, b: Seq<Seq<char>>| self.has_rule(h, b) ==> other.has_rule(h, b),
    {
        let a = self.shape();
        let b = other.shape();
        assert(a.symbols.len() == self.symbols.len() && b.symbols.len() == other.symbols.len());
        assert(a.rules.len() == self.rules.len() && b.rules.len() == other.rules.len());
        assert(self.start == other.start);
        assert forall|i: int| 0 <= i < self.symbols.len() implies (#[trigger] self.symbols[i]).shape()
            == other.symbols[i].shape() by {
            assert(a.symbols[i] == self.symbols[i].shape());
            assert(b.symbols[i] == other.symbols[i].shape());
        }
        assert(self.symbols[self.start as int].shape() == other.symbols[self.start as int].shape());
        assert forall|i: int| 0 <= i < self.symbols.len() implies (#[trigger] self.symbols[i]).name()
            == other.symbols[i].name() by {
            assert(self.symbols[i].shape() == other.symbols[i].shape());
        }
        assert forall|n: Seq<char>| self.is_nonterminal(n) implies other.is_nonterminal(n) by {
            let i = choose|i: int|
                0 <= i < self.symbols.len() && (#[trigger] self.symbols[i]).name() == n
                    && self.symbols[i] is NonTerm;
            assert(self.symbols[i].shape() == other.symbols[i].shape());
            assert(other.symbols[i].name() == n);
        }
        assert forall|n: Seq<char>| self.is_terminal(n) implies other.is_terminal(n) by {
            let i = choose|i: int|
                0 <= i < self.symbols.len() && (#[trigger] self.symbols[i]).name() == n
                    && self.symbols[i] is Terminal;
            assert(self.symbols[i].shape() == other.symbols[i].shape());
            assert(other.symbols[i].name() == n);
        }
        assert forall|n: Seq<char>, l: Seq<char>| self.terminal_accepts(n, l) implies other.terminal_accepts(
            n,
            l,
        ) by {
            let i = choose|i: int|
                0 <= i < self.symbols.len() && (#[trigger] self.symbols[i]).name() == n
                    && self.symbols[i].accepts(l);
            assert(self.symbols[i].shape() == other.symbols[i].shape());
            match (self.symbols[i], other.symbols[i]) {
                (Symbol::Terminal(_, p), Symbol::Terminal(_, q)) => {
                    p.lemma_same_shape(&q, l);
                },
                _ => {},
            }
            assert(other.symbols[i].name() == n);
        }
        assert forall|h: Seq<char>, names: Seq<Seq<char>>| self.has_rule(h, names) implies other.has_rule(
            h,
            names,
        ) by {
            let r = choose|r: int|
                0 <= r < self.rules.len() && self.symbols[(#[trigger] self.rules[r]).head as int].name()
                    == h && names_of(self.symbols@, self.rules[r].body@) == names;
            assert(a.rules[r] == self.rules[r].shape());
            assert(b.rules[r] == other.rules[r].shape());
            assert(self.rules[r].shape() == other.rules[r].shape());
            assert(rule_ok(self.symbols@, self.rules[r]));
            assert(names_of(other.symbols@, other.rules[r].body@) =~= names);
            assert(other.symbols[other.rules[r].head as int].name() == h);
        }
    }
}

impl Symbol {
    /// A copy of the symbol.
    pub fn duplicate(&self) -> (r: Symbol)
        ensures
            r.shape() == self.shape(),
    {
        match self {
            Symbol::NonTerm(name) => Symbol::NonTerm(name.clone()),
            Symbol::Terminal(name, pattern) => Symbol::Terminal(name.clone(), pattern.duplicate()),
        }
    }
}

impl Rule {
    /// A copy of the rule.
    pub fn duplicate(&self) -> (r: Rule)
        ensures
            r.shape() == self.shape(),
    {
        let mut body: Vec<usize> = Vec::new();
        let mut k: usize = 0;
        while k < self.body.len()
            invariant
                k <= self.body.len(),
                body.len() == k,
                forall|j: int| 0 <= j < k ==> body[j] == self.body[j],
            decreases self.body.len() - k,
        {
            body.push(self.body[k]);
            k += 1;
        }
        assert(body@ =~= self.body@);
        Rule { head: self.head, body, label: self.label.clone() }
    }
}

/// Tables that are made of the same as sound tables are sound, with the
/// same ranks.
proof fn lemma_same_tables(
    symbols: Seq<Symbol>,
    rules: Seq<Rule>,
    copy: Seq<Symbol>,
    rules2: Seq<Rule>,
    nullable: Seq<bool>,
    chosen: Seq<usize>,
    rank: Seq<nat>,
)
    requires
        tables_ok(symbols, rules),
        ranks_ok(rules, nullable, chosen, rank),
        symbol_shapes(copy) == symbol_shapes(symbols),
        rule_shapes(rules2) == rule_shapes(rules),
    ensures
        tables_ok(copy, rules2),
        ranks_ok(rules2, nullable, chosen, rank),
        copy.len() == symbols.len(),
        rules2.len() == rules.len(),
        forall|i: int| 0 <= i < symbols.len() ==> (#[trigger] copy[i]).shape() == symbols[i].shape(),
        forall|r: int| 0 <= r < rules.len() ==> (#[trigger] rules2[r]).shape() == rules[r].shape(),
{
    assert(symbol_shapes(copy).len() == copy.len());
    assert(symbol_shapes(symbols).len() == symbols.len());
    assert(rule_shapes(rules2).len() == rules2.len());
    assert(rule_shapes(rules).len() == rules.len());
    assert forall|i: int| 0 <= i < symbols.len() implies (#[trigger] copy[i]).shape()
        == symbols[i].shape() by {
        assert(symbol_shapes(copy)[i] == copy[i].shape());
        assert(symbol_shapes(symbols)[i] == symbols[i].shape());
    }
    assert forall|r: int| 0 <= r < rules.len() implies (#[trigger] rules2[r]).shape()
        == rules[r].shape() by {
        assert(rule_shapes(rules2)[r] == rules2[r].shape());
        assert(rule_shapes(rules)[r] == rules[r].shape());
    }
    assert forall|i: int| 0 <= i < symbols.len() implies (#[trigger] copy[i]).name()
        == symbols[i].name() && (copy[i] is NonTerm) == (symbols[i] is NonTerm) by {
        assert(copy[i].shape() == symbols[i].shape());
    }
    assert forall|r: int| 0 <= r < rules2.len() implies rule_ok(copy, #[trigger] rules2[r]) by {
        assert(rules2[r].shape() == rules[r].shape());
        assert(rule_ok(symbols, rules[r]));
        assert(names_of(copy, rules2[r].body@) =~= names_of(symbols, rules[r].body@)) by {
            assert forall|k: int| 0 <= k < rules[r].body.len() implies copy[rules2[r].body[k] as int].name()
                == symbols[rules[r].body[k] as int].name() by {
                assert(rules[r].body[k] < symbols.len());
            }
        }
    }
    assert forall|r: int, q: int| 0 <= r < q < rules2.len() implies (#[trigger] rules2[r]).label@ != (
    #[trigger] rules2[q]).label@ by {
        assert(rules2[r].shape() == rules[r].shape());
        assert(rules2[q].shape() == rules[q].shape());
    }
    assert forall|x: int| 0 <= x < rank.len() implies #[trigger] chosen_ok(
        rules2,
        rank,
        chosen,
        x,
    ) by {
        assert(chosen_ok(rules, rank, chosen, x));
        if rank[x] > 0 {
            assert(rules2[chosen[x] as int].shape() == rules[chosen[x] as int].shape());
            assert forall|q: int|
                0 <= q < chosen[x] && (#[trigger] rules2[q]).head == x implies !body_within(
                rank,
                rules2[q].body@,
                (rank[x] - 1) as nat,
            ) by {
                assert(rules2[q].shape() == rules[q].shape());
                assert(rules[q].head == x);
            }
        }
    }
    assert forall|r: int, bound: nat| 0 <= r < rules2.len() implies #[trigger] closed_below(
        rules2,
        rank,
        r,
        bound,
    ) by {
        assert(closed_below(rules, rank, r, bound));
        assert(rules2[r].shape() == rules[r].shape());
    }
}

impl Grammar {
    /// Grammars that are made of the same have the same ranks, the same
    /// nullable symbols and the same chosen rules.
    proof fn lemma_same_ranks(&self, other: &Grammar)
        requires
            self.wf(),
            other.wf(),
            self.shape() == other.shape(),
        ensures
            self.ranks() == other.ranks(),
            self.nullable@ == other.nullable@,
            self.chosen@ == other.chosen@,
            self.ranked(self.ranks()),
    {
        assert(self.shape().symbols.len() == self.symbols.len());
        assert(other.shape().symbols.len() == other.symbols.len());
        assert(self.shape().rules.len() == self.rules.len());
        assert(other.shape().rules.len() == other.rules.len());
        assert forall|r: int| 0 <= r < self.rules.len() implies (#[trigger] self.rules@[r]).head
            == other.rules@[r].head && self.rules@[r].body@ == other.rules@[r].body@ by {
            assert(self.shape().rules[r] == self.rules[r].shape());
            assert(other.shape().rules[r] == other.rules[r].shape());
        }
        assert forall|r: int, k: int|
            0 <= r < self.rules.len() && 0 <= k < self.rules@[r].body.len() implies (
        #[trigger] self.rules@[r].body[k]) < self.ranks().len() by {
            assert(rule_ok(self.symbols@, self.rules[r]));
        }
        assert(self.ranked(self.ranks()));
        assert(other.ranked(other.ranks()));
        lemma_ranks_unique(
            self.rules@,
            other.rules@,
            self.nullable@,
            self.chosen@,
            self.ranks(),
            other.nullable@,
            other.chosen@,
            other.ranks(),
        );
    }

    /// Grammars that are made of the same have the same shortest
    /// derivation of the empty string, if they have one.
    pub proof fn law_equal_empty_parse(&self, other: &Grammar)
        requires
            self.wf(),
            other.wf(),
            self.shape() == other.shape(),
        ensures
            self.start_nullable() == other.start_nullable(),
            self.start_nullable() ==> self.shortest_empty_parse() == other.shortest_empty_parse(),
    {
        self.lemma_same_ranks(other);
        assert(self.start == other.start);
        if self.start_nullable() {
            assert(self.ranks()[self.start as int] > 0);
            self.lemma_same_epsilon(other, self.start as int);
        }
    }

    /// Grammars that are made of the same have the same shortest tree of
    /// the empty string for every nullable symbol.
    proof fn lemma_same_epsilon(&self, other: &Grammar, x: int)
        requires
            self.wf(),
            other.wf(),
            self.shape() == other.shape(),
            0 <= x < self.symbols.len(),
            self.ranks()[x] > 0,
        ensures
            self.epsilon_view(x) == other.epsilon_view(x),
        decreases self.ranks()[x],
    {
        self.lemma_same_ranks(other);
        let r = self.chosen[x] as int;
        assert(self.shape().symbols.len() == self.symbols.len());
        assert(other.shape().symbols.len() == other.symbols.len());
        assert(self.shape().rules.len() == self.rules.len());
        assert(other.shape().rules.len() == other.rules.len());
        assert(chosen_ok(self.rules@, self.ranks(), self.chosen@, x));
        assert(rule_ok(self.symbols@, self.rules[r]));
        assert(self.shape().rules[r] == self.rules[r].shape());
        assert(other.shape().rules[r] == other.rules[r].shape());
        assert(self.rules[r].shape() == other.rules[r].shape());
        assert forall|k: int| 0 <= k < self.rules[r].body.len() implies self.epsilon_view(
            self.rules[r].body[k] as int,
        ) == other.epsilon_view(other.rules[r].body[k] as int) by {
            let y = self.rules[r].body[k] as int;
            assert(0 < self.ranks()[self.rules[r].body[k] as int] < self.ranks()[x]);
            self.lemma_same_epsilon(other, y);
        }
        assert(self.epsilon_views(x) =~= other.epsilon_views(x));
    }
}

impl Clone for Grammar {
    /// A grammar that is made of the same symbols and rules, in the same
    /// order, with the same start symbol, and with the same shortest
    /// derivation of the empty string.
    fn clone(&self) -> (r: Grammar)
        ensures
            r.shape() == self.shape(),
            r.start_nullable() == self.start_nullable(),
            r.start_nullable() ==> r.shortest_empty_parse() == self.shortest_empty_parse(),
    {
        proof {
            use_type_invariant(self);
        }
        let mut symbols: Vec<Symbol> = Vec::new();
        let mut i: usize = 0;
        while i < self.symbols.len()
            invariant
                i <= self.symbols.len(),
                symbols.len() == i,
                forall|j: int| 0 <= j < i ==> symbols[j].shape() == self.symbols[j].shape(),
            decreases self.symbols.len() - i,
        {
            symbols.push(self.symbols[i].duplicate());
            i += 1;
        }
        let mut rules: Vec<Rule> = Vec::new();
        let mut k: usize = 0;
        while k < self.rules.len()
            invariant
                k <= self.rules.len(),
                rules.len() == k,
                forall|j: int| 0 <= j < k ==> rules[j].shape() == self.rules[j].shape(),
            decreases self.rules.len() - k,
        {
            rules.push(self.rules[k].duplicate());
            k += 1;
        }
        let mut nullable: Vec<bool> = Vec::new();
        let mut chosen: Vec<usize> = Vec::new();
        let mut x: usize = 0;
        while x < self.nullable.len()
            invariant
                x <= self.nullable.len(),
                self.nullable.len() == self.chosen.len(),
                nullable.len() == x,
                chosen.len() == x,
                forall|j: int| 0 <= j < x ==> nullable[j] == self.nullable[j],
                forall|j: int| 0 <= j < x ==> chosen[j] == self.chosen[j],
            decreases self.nullable.len() - x,
        {
            nullable.push(self.nullable[x]);
            chosen.push(self.chosen[x]);
            x += 1;
        }
        proof {
            assert(symbol_shapes(symbols@) =~= symbol_shapes(self.symbols@));
            assert(rule_shapes(rules@) =~= rule_shapes(self.rules@));
            assert(nullable@ =~= self.nullable@);
            assert(chosen@ =~= self.chosen@);
            lemma_same_tables(
                self.symbols@,
                self.rules@,
                symbols@,
                rules@,
                self.nullable@,
                self.chosen@,
                self.ranks(),
            );
            let q = choose|q: int|
                0 <= q < self.rules.len() && (#[trigger] self.rules[q]).head == self.start;
            assert(rules[q].shape() == self.rules[q].shape());
            assert(symbols[self.start as int].shape() == self.symbols[self.start as int].shape());
            let g = Grammar { symbols, rules, start: self.start, nullable, chosen };
            assert(self.ranked(self.ranks()));
            assert(g.ranked(self.ranks()));
        }
        let r = Grammar { symbols, rules, start: self.start, nullable, chosen };
        proof {
            assert(r.shape() == self.shape());
            self.law_equal_empty_parse(&r);
        }
        r
    }
}

impl PartialEq for Grammar {
    /// Whether both grammars are made of the same symbols and rules, in
    /// the same order, with the same start symbol.
    fn eq(&self, other: &Grammar) -> (r: bool) {
        if self.start != other.start || self.symbols.len() != other.symbols.len()
            || self.rules.len() != other.rules.len() {
            assert(self.shape() != other.shape()) by {
                if self.symbols.len() != other.symbols.len() {
                    assert(self.shape().symbols.len() != other.shape().symbols.len());
                }
                if self.rules.len() != other.rules.len() {
                    assert(self.shape().rules.len() != other.shape().rules.len());
                }
            }
            return false;
        }
        let mut i: usize = 0;
        while i < self.symbols.len()
            invariant
                i <= self.symbols.len(),
                self.symbols.len() == other.symbols.len(),
                forall|j: int| 0 <= j < i ==> self.symbols[j].shape() == other.symbols[j].shape(),
            decreases self.symbols.len() - i,
        {
            if !self.symbols[i].same(&other.symbols[i]) {
                assert(self.shape().symbols[i as int] != other.shape().symbols[i as int]);
                return false;
            }
            i += 1;
        }
        let mut r: usize = 0;
        while r < self.rules.len()
            invariant
                r <= self.rules.len(),
                self.rules.len() == other.rules.len(),
                self.symbols.len() == other.symbols.len(),
                self.start == other.start,
                forall|j: int|
                    0 <= j < self.symbols.len() ==> self.symbols[j].shape()
                        == other.symbols[j].shape(),
                forall|j: int| 0 <= j < r ==> self.rules[j].shape() == other.rules[j].shape(),
            decreases self.rules.len() - r,
        {
            if !self.rules[r].same(&other.rules[r]) {
                assert(self.shape().rules[r as int] != other.shape().rules[r as int]);
                return false;
            }
            r += 1;
        }
        assert(self.shape().symbols =~= other.shape().symbols);
        assert(self.shape().rules =~= other.shape().rules);
        true
    }
}

impl PartialEqSpecImpl for Grammar {
    open spec fn obeys_eq_spec() -> bool {
        true
    }

    open spec fn eq_spec(&self, other: &Grammar) -> bool {
        self.shape() == other.shape()
    }
}

} // verus!
