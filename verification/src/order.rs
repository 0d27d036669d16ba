//! Symbols and rules may be added to a builder in any order: the builder
//! that comes of it holds the same symbols and rules, and so the grammar
//! that is made of it generates the same sentences with the same parses.
use crate::equality::{rule_shape, SymbolShape};
use crate::grammar::{rule_label, GrammarBuilder};
use crate::pattern::Pattern;
use vstd::prelude::*;

verus! {

/// One addition to a grammar builder.
pub enum Addition {
    /// A nonterminal, by its name.
    Symbol(Seq<char>),
    /// A terminal, by its name and its pattern.
    Terminal(Seq<char>, Pattern),
    /// A rule, by its head and the names of its body.
    Rule(Seq<char>, Seq<Seq<char>>),
}

impl Addition {
    /// Whether of the two additions only the one that comes first counts:
    /// they are terminals of one name whose patterns differ on some lexeme,
    /// or different rules that are printed alike.
    pub open spec fn clashes(self, other: Addition) -> bool {
        match (self, other) {
            (Addition::Terminal(n1, p1), Addition::Terminal(n2, p2)) => n1 == n2 && exists|
                l: Seq<char>,
            | #[trigger] p1.accepts(l) != p2.accepts(l),
            (Addition::Rule(h1, b1), Addition::Rule(h2, b2)) => rule_label(h1, b1) == rule_label(
                h2,
                b2,
            ) && !(h1 == h2 && b1 == b2),
            _ => false,
        }
    }
}

impl GrammarBuilder {
    /// Whether `after` is what comes of this builder when `what` is added
    /// and nothing fails: what it then holds, and in which order. A symbol
    /// or a rule that is new is appended; one that is there already
    /// changes nothing.
    pub open spec fn added(&self, after: &GrammarBuilder, what: Addition) -> bool {
        &&& self.error() is None
        &&& after.error() is None
        &&& match what {
            Addition::Symbol(name) => {
                &&& !self.is_terminal(name)
                &&& forall|n: Seq<char>|
                    after.is_nonterminal(n) == (self.is_nonterminal(n) || n == name)
                &&& after.same_terminals(self)
                &&& after.same_rules(self)
                &&& after.rules_shape() == self.rules_shape()
                &&& after.symbols_shape() == if self.is_nonterminal(name) {
                    self.symbols_shape()
                } else {
                    self.symbols_shape().push(SymbolShape::NonTerm(name))
                }
            },
            Addition::Terminal(name, pattern) => {
                &&& !self.is_nonterminal(name)
                &&& after.same_nonterminals(self)
                &&& after.same_rules(self)
                &&& after.rules_shape() == self.rules_shape()
                &&& after.symbols_shape() == if self.is_terminal(name) {
                    self.symbols_shape()
                } else {
                    self.symbols_shape().push(SymbolShape::Terminal(name, pattern.shape()))
                }
                &&& if self.is_terminal(name) {
                    after.same_terminals(self)
                } else {
                    &&& forall|n: Seq<char>|
                        after.is_terminal(n) == (self.is_terminal(n) || n == name)
                    &&& forall|n: Seq<char>, l: Seq<char>|
                        after.terminal_accepts(n, l) == (self.terminal_accepts(n, l) || (n == name
                            && pattern.accepts(l)))
                }
            },
            Addition::Rule(head, body) => {
                &&& self.is_nonterminal(head)
                &&& forall|k: int| 0 <= k < body.len() ==> self.declares(#[trigger] body[k])
                &&& after.same_nonterminals(self)
                &&& after.same_terminals(self)
                &&& forall|h: Seq<char>, b: Seq<Seq<char>>|
                    after.has_rule(h, b) == (self.has_rule(h, b) || (h == head && b == body
                        && !self.has_label(rule_label(head, body))))
                &&& forall|l: Seq<char>|
                    after.has_label(l) == (self.has_label(l) || l == rule_label(head, body))
                &&& after.symbols_shape() == self.symbols_shape()
                &&& after.rules_shape() == if self.has_label(rule_label(head, body)) {
                    self.rules_shape()
                } else {
                    self.rules_shape().push(rule_shape(self.symbols_shape(), head, body))
                }
            },
        }
    }

    /// Whether `other` holds the same symbols and rules.
    pub open spec fn same_content(&self, other: &GrammarBuilder) -> bool {
        self.same_nonterminals(other) && self.same_terminals(other) && self.same_rules(other)
    }

    /// Two additions that do not clash, and that can be made in either
    /// order without failure, give builders with the same symbols and
    /// rules in both orders.
    pub proof fn law_any_order(
        &self,
        one: &GrammarBuilder,
        both: &GrammarBuilder,
        other: &GrammarBuilder,
        either: &GrammarBuilder,
        first: Addition,
        second: Addition,
    )
        requires
            self.added(one, first),
            one.added(both, second),
            self.added(other, second),
            other.added(either, first),
            !first.clashes(second),
        ensures
            both.same_content(either),
    {
    }
}

} // verus!
