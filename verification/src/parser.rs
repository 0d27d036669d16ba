//! The parser: it runs the recognizer over the tokens of a scanner and
//! hands out the state sets of an accepted input.
use crate::chart::{holds, lexemes, sets_view, Derivation, Item, Key};
use crate::grammar::Grammar;
use crate::recognizer::fill;
use crate::scanner::Scanner;
use crate::tree::TreeView;
use vstd::prelude::*;

verus! {

/// Why an input was not accepted.
#[derive(Debug)]
pub enum ParseError {
    /// No item could scan the token at this position; the token's text is
    /// the second field.
    UnexpectedToken(usize, String),
    /// The input ended at this position while more was needed. The parser
    /// itself reports an input that ends too early as `NoParse`, with the
    /// grammar and the state sets.
    UnexpectedEOF(usize),
    /// The whole input was scanned, but no rule of the start symbol spans
    /// it. The fields hold a copy of the grammar and the state sets.
    NoParse(Grammar, Vec<Vec<Item>>),
}

/// The state sets of an accepted input, with the grammar and the tokens.
pub struct ParseState<'a> {
    pub(crate) grammar: &'a Grammar,
    pub(crate) sets: Vec<Vec<Item>>,
    pub(crate) tokens: Vec<String>,
    pub(crate) accept: usize,
}

impl Grammar {
    /// Whether an item with this key is a completed rule of the start
    /// symbol that began at the front of the input.
    pub open(crate) spec fn accepting(&self, key: Key) -> bool {
        self.key_ok(key) && self.is_complete(key) && key.start == 0 && self.rules[key.rule].head
            == self.start
    }

    /// An accepting item in the last of sound state sets shows that the
    /// input is a sentence.
    pub(crate) proof fn lemma_accepted(
        &self,
        tokens: Seq<Seq<char>>,
        sets: Seq<Seq<Item>>,
        k: int,
    )
        requires
            self.wf(),
            self.sound(tokens, sets),
            sets.len() == tokens.len() + 1,
            0 <= k < sets[tokens.len() as int].len(),
            self.accepting(sets[tokens.len() as int][k].key()),
        ensures
            self.generates(tokens),
    {
        let n = tokens.len() as int;
        let key = sets[n][k].key();
        let forest = self.first_forest(tokens, sets, n, k);
        self.lemma_first_forest(tokens, sets, n, k);
        self.lemma_forest_node(tokens, key, n, forest);
        let tree = TreeView::Node(self.rules[key.rule].label@, forest);
        assert(tokens.subrange(0, n) =~= tokens);
        assert(self.parses(tree, tokens));
    }

    /// The last of closed state sets holds an accepting item for every
    /// sentence.
    pub(crate) proof fn lemma_sentence_accepted(&self, tokens: Seq<Seq<char>>, sets: Seq<Seq<Item>>)
        requires
            self.wf(),
            self.sound(tokens, sets),
            sets.len() == tokens.len() + 1,
            self.closed(tokens, sets, tokens.len() as int, sets[tokens.len() as int].len() as int),
            self.generates(tokens),
        ensures
            exists|k: int|
                0 <= k < sets[tokens.len() as int].len() && self.accepting(
                    (#[trigger] sets[tokens.len() as int][k]).key(),
                ),
    {
        let n = tokens.len() as int;
        let tree = choose|tree: TreeView| self.parses(tree, tokens);
        match tree {
            TreeView::Leaf(terminal, lexeme) => {
                self.lemma_leaf(terminal, lexeme, self.start as int);
            },
            TreeView::Node(label, kids) => {
                let r = self.lemma_node_rule(label, kids, self.start as int);
                self.lemma_rule_named(r);
                let seed = Key { rule: r, dot: 0, start: 0 };
                assert(self.rules[r].head == self.start);
                assert(holds(sets, 0, seed));
                assert(tokens.subrange(0, n) =~= tokens);
                self.lemma_forest_reached(tokens, sets, seed, 0, kids, n);
                let full = Key { rule: r, dot: kids.len() as int, start: 0 };
                let k = choose|k: int| 0 <= k < sets[n].len() && (#[trigger] sets[n][k]).key() == full;
                assert(self.accepting(sets[n][k].key()));
            },
        }
    }
}

impl Grammar {
    /// Whether an item of `set` waits for the terminal called `name`: the
    /// item names a rule of the grammar and a dot before a symbol of its
    /// body, and that symbol is the terminal.
    pub open(crate) spec fn expects(&self, set: Seq<Item>, name: Seq<char>) -> bool {
        exists|k: int|
            0 <= k < set.len() && self.waits_for_terminal((#[trigger] set[k]).key(), name)
    }

    /// Whether an item with this key waits for the terminal called `name`.
    pub open(crate) spec fn waits_for_terminal(&self, key: Key, name: Seq<char>) -> bool {
        &&& 0 <= key.rule < self.rules.len()
        &&& 0 <= key.dot < self.rules[key.rule].body.len()
        &&& self.symbols[self.next_symbol(key)] is Terminal
        &&& self.sym_name(self.next_symbol(key)) == name
    }

    /// The names of the terminals that the items of `set` wait for, each
    /// of them once: what the input could go on with at the set's
    /// position.
    pub fn expected(&self, set: &Vec<Item>) -> (r: Vec<String>)
        ensures
            forall|name: Seq<char>|
                #[trigger] self.expects(set@, name) == exists|i: int|
                    0 <= i < r.len() && (#[trigger] r[i])@ == name,
            forall|i: int, j: int| 0 <= i < j < r.len() ==> (#[trigger] r[i])@ != (#[trigger] r[j])@,
    {
        proof {
            use_type_invariant(self);
        }
        let mut out: Vec<String> = Vec::new();
        let mut k: usize = 0;
        while k < set.len()
            invariant
                k <= set.len(),
                self.wf(),
                forall|name: Seq<char>|
                    #[trigger] self.expects(set@.subrange(0, k as int), name) == exists|i: int|
                        0 <= i < out.len() && (#[trigger] out[i])@ == name,
                forall|i: int, j: int|
                    0 <= i < j < out.len() ==> (#[trigger] out[i])@ != (#[trigger] out[j])@,
            decreases set.len() - k,
        {
            let ghost seen = set@.subrange(0, k as int);
            let ghost more = set@.subrange(0, k + 1);
            let ghost before = out@;
            let ghost key = set[k as int].key();
            let mut added = false;
            let rule = set[k].rule;
            let dot = set[k].dot;
            if rule < self.rules.len() && dot < self.rules[rule].body.len() {
                proof {
                    self.lemma_rule_named(rule as int);
                }
                let x = self.rules[rule].body[dot];
                if self.symbols[x].is_terminal() {
                    let name = self.symbols[x].name_text();
                    let mut i: usize = 0;
                    let mut found = false;
                    while i < out.len() && !found
                        invariant
                            i <= out.len(),
                            !found ==> forall|j: int| 0 <= j < i ==> (#[trigger] out[j])@ != name@,
                            found ==> exists|j: int| 0 <= j < out.len() && (#[trigger] out[j])@ == name@,
                        decreases out.len() - i, if found { 0nat } else { 1nat },
                    {
                        if out[i] == name {
                            found = true;
                        } else {
                            i += 1;
                        }
                    }
                    if !found {
                        out.push(name);
                        added = true;
                    }
                }
            }
            proof {
                assert forall|name: Seq<char>|
                    #[trigger] self.expects(more, name) == exists|i: int|
                        0 <= i < out.len() && (#[trigger] out[i])@ == name by {
                    let listed_before = exists|i: int|
                        0 <= i < before.len() && (#[trigger] before[i])@ == name;
                    assert(self.expects(seen, name) == listed_before);
                    if self.expects(more, name) {
                        let j = choose|j: int|
                            0 <= j < more.len() && self.waits_for_terminal(
                                (#[trigger] more[j]).key(),
                                name,
                            );
                        if j < k {
                            assert(seen[j] == more[j]);
                            assert(self.expects(seen, name));
                            let i = choose|i: int| 0 <= i < before.len() && (#[trigger] before[i])@ == name;
                            assert(out@[i]@ == name);
                        } else {
                            assert(more[j] == set[k as int]);
                            if added {
                                assert(out@[out.len() - 1]@ == name);
                            } else {
                                let i = choose|i: int|
                                    0 <= i < out.len() && (#[trigger] out[i])@ == name;
                                assert(out@[i]@ == name);
                            }
                        }
                    }
                    if exists|i: int| 0 <= i < out.len() && (#[trigger] out[i])@ == name {
                        let i = choose|i: int| 0 <= i < out.len() && (#[trigger] out[i])@ == name;
                        if i < before.len() {
                            assert(before[i]@ == name);
                            assert(self.expects(seen, name));
                            let j = choose|j: int|
                                0 <= j < seen.len() && self.waits_for_terminal(
                                    (#[trigger] seen[j]).key(),
                                    name,
                                );
                            assert(more[j] == seen[j]);
                        } else {
                            assert(self.waits_for_terminal(more[k as int].key(), name));
                        }
                    }
                }
            }
            k += 1;
        }
        proof {
            assert(set@.subrange(0, set.len() as int) =~= set@);
        }
        out
    }
}

/// The position of the first accepting item of `set`, if it holds one.
pub(crate) fn find_accepting(g: &Grammar, set: &Vec<Item>) -> (r: Option<usize>)
    requires
        forall|k: int| 0 <= k < set.len() ==> g.key_ok((#[trigger] set[k]).key()),
    ensures
        match r {
            Some(k) => k < set.len() && g.accepting(set[k as int].key()) && forall|j: int|
                0 <= j < k ==> !g.accepting((#[trigger] set[j]).key()),
            None => forall|j: int| 0 <= j < set.len() ==> !g.accepting((#[trigger] set[j]).key()),
        },
{
    let mut k: usize = 0;
    while k < set.len()
        invariant
            k <= set.len(),
            forall|j: int| 0 <= j < set.len() ==> g.key_ok((#[trigger] set[j]).key()),
            forall|j: int| 0 <= j < k ==> !g.accepting((#[trigger] set[j]).key()),
        decreases set.len() - k,
    {
        let rule = set[k].rule;
        if set[k].start == 0 && set[k].dot == g.rules[rule].body.len() && g.rules[rule].head
            == g.start {
            return Some(k);
        }
        k += 1;
    }
    None
}

/// Takes every token that is left in the scanner.
pub fn drain(input: &mut Scanner<String>) -> (r: Vec<String>)
    ensures
        r@ == old(input).remaining(),
        final(input).tokens() == old(input).tokens(),
        final(input).mark() == old(input).mark(),
        final(input).taken() == old(input).tokens().len(),
{
    let mut out: Vec<String> = Vec::new();
    let ghost first = input.taken();
    proof {
        use_type_invariant(&*input);
        input.lemma_valid();
        assert(out@ =~= input.tokens().subrange(first, first));
    }
    loop
        invariant
            input.valid(),
            first == old(input).taken(),
            input.tokens() == old(input).tokens(),
            input.mark() == old(input).mark(),
            0 <= first <= input.taken(),
            out@ == input.tokens().subrange(first, input.taken()),
        ensures
            input.taken() == input.tokens().len(),
        decreases input.tokens().len() - input.taken(),
    {
        let ghost before = input.taken();
        match input.next() {
            Some(token) => {
                out.push(token);
                assert(out@ =~= input.tokens().subrange(first, before + 1));
            },
            None => {
                break ;
            },
        }
    }
    out
}

impl<'a> ParseState<'a> {
    /// The state's invariant: there is one more set than tokens, the sets
    /// are sound and closed, and the last one holds an accepting item.
    #[verifier::type_invariant]
    pub open(crate) spec fn wf(&self) -> bool {
        &&& self.grammar.wf()
        &&& self.sets.len() == self.tokens.len() + 1
        &&& self.grammar.sound(lexemes(self.tokens@), sets_view(self.sets@))
        &&& self.grammar.closed(
            lexemes(self.tokens@),
            sets_view(self.sets@),
            self.tokens.len() as int,
            self.sets[self.tokens.len() as int].len() as int,
        )
        &&& self.accept < self.sets[self.tokens.len() as int].len()
        &&& self.grammar.accepting(self.sets[self.tokens.len() as int][self.accept as int].key())
    }

    /// The grammar that accepted the input.
    pub open(crate) spec fn grammar(&self) -> Grammar {
        *self.grammar
    }

    /// The texts of the tokens.
    pub open(crate) spec fn input(&self) -> Seq<Seq<char>> {
        lexemes(self.tokens@)
    }
}

impl Grammar {
    /// Whether derivation `d` of the item at position `k` of set `e` names
    /// items of `sets` that fit together: the item with the dot one step
    /// earlier, in the set before for a scan, in the same set for a step
    /// over a nullable symbol, and for a completion in the set where the
    /// completed item began; the completed item is in set `e`, began at
    /// `origin` behind the start of the item, and its rule's head is the
    /// symbol that the dot stepped over.
    pub open(crate) spec fn links(&self, sets: Seq<Seq<Item>>, e: int, k: int, d: Derivation) -> bool {
        let it = sets[e][k];
        match d {
            Derivation::Scan { pred } => {
                &&& e >= 1
                &&& pred < sets[e - 1].len()
                &&& sets[e - 1][pred as int].key().advanced() == it.key()
            },
            Derivation::Nullable { pred } => {
                &&& pred < sets[e].len()
                &&& sets[e][pred as int].key().advanced() == it.key()
            },
            Derivation::Complete { origin, pred, cause } => {
                &&& it.start <= origin < e
                &&& pred < sets[origin as int].len()
                &&& sets[origin as int][pred as int].key().advanced() == it.key()
                &&& sets[origin as int][pred as int].end == origin
                &&& cause < sets[e].len()
                &&& sets[e][cause as int].start == origin
                &&& sets[e][cause as int].end == e
                &&& self.is_complete(sets[e][cause as int].key())
                &&& self.waits_for(
                    sets[origin as int][pred as int].key(),
                    sets[e][cause as int].rule as int,
                )
            },
        }
    }

    /// Whether the state sets are laid out as they should be: every item
    /// ends where its set stands, no set holds two items with one key, an
    /// item has a derivation exactly if its dot has moved, and every
    /// derivation of every item names items that fit together.
    pub open spec fn laid_out(&self, sets: Seq<Seq<Item>>) -> bool {
        &&& forall|i: int, k: int|
            0 <= i < sets.len() && 0 <= k < sets[i].len() ==> (#[trigger] sets[i][k]).end == i
        &&& forall|i: int, k: int, j: int|
            0 <= i < sets.len() && 0 <= k < j < sets[i].len() ==> (#[trigger] sets[i][k]).key() != (
            #[trigger] sets[i][j]).key()
        &&& forall|i: int, k: int|
            0 <= i < sets.len() && 0 <= k < sets[i].len() ==> ((#[trigger] sets[i][k]).derivs.len()
                == 0) == (sets[i][k].dot == 0)
        &&& forall|i: int, k: int, q: int|
            0 <= i < sets.len() && 0 <= k < sets[i].len() && 0 <= q < sets[i][k].derivs.len()
                ==> self.links(sets, i, k, #[trigger] sets[i][k].derivs[q])
    }

    /// Sound state sets are laid out as they should be.
    pub(crate) proof fn lemma_laid_out(&self, tokens: Seq<Seq<char>>, sets: Seq<Seq<Item>>)
        requires
            self.wf(),
            self.sound(tokens, sets),
        ensures
            self.laid_out(sets),
    {
        assert forall|i: int, k: int| 0 <= i < sets.len() && 0 <= k < sets[i].len() implies (
        #[trigger] sets[i][k]).end == i && (sets[i][k].derivs.len() == 0) == (sets[i][k].dot == 0) by {
            assert(self.item_ok(tokens, sets, i, k));
        }
        assert forall|i: int, k: int, q: int|
            0 <= i < sets.len() && 0 <= k < sets[i].len() && 0 <= q
                < sets[i][k].derivs.len() implies self.links(
            sets,
            i,
            k,
            #[trigger] sets[i][k].derivs[q],
        ) by {
            let d = sets[i][k].derivs[q];
            assert(self.item_ok(tokens, sets, i, k));
            assert(self.deriv_ok(tokens, sets, i, sets[i][k].key(), k, d, q == 0));
            match d {
                Derivation::Complete { origin, pred, cause } => {
                    assert(self.item_ok(tokens, sets, origin as int, pred as int));
                    assert(self.item_ok(tokens, sets, i, cause as int));
                },
                _ => {},
            }
        }
    }
}

/// An Earley parser for one grammar.
pub struct EarleyParser {
    pub(crate) grammar: Grammar,
}

impl EarleyParser {
    /// The parser's grammar.
    pub open(crate) spec fn grammar(&self) -> Grammar {
        self.grammar
    }

    /// A parser for `grammar`.
    pub fn new(grammar: Grammar) -> (r: EarleyParser)
        ensures
            r.grammar() == grammar,
    {
        EarleyParser { grammar }
    }

    /// The state sets for the tokens that are left in `input`, whether
    /// they are a sentence or not: one set for every position, and in the
    /// set of a position exactly the items that can be derived there. Of
    /// the set of a position `Grammar::expected` names the terminals that
    /// the input could go on with at that position.
    pub fn chart(&self, input: &mut Scanner<String>) -> (r: Vec<Vec<Item>>)
        ensures
            final(input).tokens() == old(input).tokens(),
            final(input).mark() == old(input).mark(),
            final(input).taken() == old(input).tokens().len(),
            r.len() == old(input).remaining().len() + 1,
            forall|key: Key, e: int|
                #[trigger] holds(sets_view(r@), e, key) == self.grammar().derivable(
                    lexemes(old(input).remaining()),
                    key,
                    e,
                ),
            self.grammar().laid_out(sets_view(r@)),
    {
        let tokens = drain(input);
        let g = &self.grammar;
        proof {
            use_type_invariant(g);
        }
        let (sets, _) = fill(g, &tokens);
        proof {
            let toks = lexemes(tokens@);
            let view = sets_view(sets@);
            g.lemma_laid_out(toks, view);
            assert forall|key: Key, e: int|
                #[trigger] holds(view, e, key) == g.derivable(toks, key, e) by {
                g.lemma_sets_exact(toks, view, key, e);
            }
        }
        sets
    }

    /// Parses the tokens that are left in `input`. The input is accepted
    /// exactly if it is a sentence of the grammar. Otherwise the error is
    /// `UnexpectedToken` where some position cannot be reached, with the
    /// position and text of the token before the first such position, and
    /// `NoParse`, with a copy of the grammar and the state sets, where
    /// every position is reached.
    pub fn parse<'a>(&'a self, input: &mut Scanner<String>) -> (r: Result<
        ParseState<'a>,
        ParseError,
    >)
        ensures
            final(input).tokens() == old(input).tokens(),
            final(input).mark() == old(input).mark(),
            final(input).taken() == old(input).tokens().len(),
            r is Ok <==> self.grammar().generates(lexemes(old(input).remaining())),
            r matches Ok(state) ==> state.wf() && state.grammar() == self.grammar() && state.input()
                == lexemes(old(input).remaining()),
            r matches Err(ParseError::UnexpectedToken(at, text)) ==> {
                &&& at < old(input).remaining().len()
                &&& text@ == old(input).remaining()[at as int]@
                &&& !self.grammar().reached(lexemes(old(input).remaining()), at + 1)
                &&& forall|j: int|
                    0 <= j <= at ==> #[trigger] self.grammar().reached(
                        lexemes(old(input).remaining()),
                        j,
                    )
            },
            r matches Err(ParseError::NoParse(copy, sets)) ==> {
                &&& copy.shape() == self.grammar().shape()
                &&& sets.len() == old(input).remaining().len() + 1
                &&& forall|j: int|
                    0 <= j <= old(input).remaining().len() ==> #[trigger] self.grammar().reached(
                        lexemes(old(input).remaining()),
                        j,
                    )
                &&& forall|key: Key, e: int|
                    #[trigger] holds(sets_view(sets@), e, key) == self.grammar().derivable(
                        lexemes(old(input).remaining()),
                        key,
                        e,
                    )
                &&& self.grammar().laid_out(sets_view(sets@))
            },
            !(r matches Err(ParseError::UnexpectedEOF(_))),
    {
        let tokens = drain(input);
        let g = &self.grammar;
        proof {
            use_type_invariant(g);
        }
        let (sets, stuck) = fill(g, &tokens);
        let n = tokens.len();
        let ghost toks = lexemes(tokens@);
        let ghost view = sets_view(sets@);
        proof {
            assert(view[n as int] == sets[n as int]@);
            assert forall|k: int| 0 <= k < sets[n as int].len() implies g.key_ok(
                (#[trigger] sets[n as int][k]).key(),
            ) by {
                assert(g.item_ok(toks, view, n as int, k));
            }
        }
        match find_accepting(g, &sets[n]) {
            Some(k) => {
                proof {
                    g.lemma_accepted(toks, view, k as int);
                }
                Ok(ParseState { grammar: g, sets, tokens, accept: k })
            },
            None => {
                proof {
                    g.lemma_laid_out(toks, view);
                    if g.generates(toks) {
                        g.lemma_sentence_accepted(toks, view);
                    }
                    assert forall|j: int| 0 <= j <= n implies (view[j].len() > 0) == #[trigger] g.reached(
                        toks,
                        j,
                    ) by {
                        g.lemma_set_reached(toks, view, j);
                    }
                    assert forall|key: Key, e: int|
                        #[trigger] holds(view, e, key) == g.derivable(toks, key, e) by {
                        g.lemma_sets_exact(toks, view, key, e);
                    }
                }
                match stuck {
                    Some(at) => Err(ParseError::UnexpectedToken(at, tokens[at].clone())),
                    None => Err(ParseError::NoParse(g.clone(), sets)),
                }
            },
        }
    }
}

impl<'a> ParseState<'a> {
    /// The state sets as sequences.
    pub open(crate) spec fn sets(&self) -> Seq<Seq<Item>> {
        sets_view(self.sets@)
    }

    /// The state sets hold exactly the items that can be deduced; every
    /// item ends where its set stands, and no set holds two items with one
    /// key.
    pub proof fn law_sets(&self, key: Key, e: int)
        requires
            self.wf(),
        ensures
            self.sets().len() == self.input().len() + 1,
            holds(self.sets(), e, key) == self.grammar().derivable(self.input(), key, e),
            forall|i: int, k: int|
                0 <= i < self.sets().len() && 0 <= k < self.sets()[i].len() ==> (
                #[trigger] self.sets()[i][k]).end == i,
            forall|i: int, k: int, j: int|
                0 <= i < self.sets().len() && 0 <= k < j < self.sets()[i].len() ==> (
                #[trigger] self.sets()[i][k]).key() != (#[trigger] self.sets()[i][j]).key(),
    {
        self.grammar.lemma_sets_exact(self.input(), self.sets(), key, e);
    }

    /// Whether derivation `d` of the item at position `k` of set `e` names
    /// items of the sets that fit together: the item with the dot one
    /// step earlier, in the set before for a scan, in the same set for a
    /// step over a nullable symbol, and for a completion in the set where
    /// the completed item began; the completed item is in set `e`, began
    /// at `origin` behind the start of the item, and its rule's head is
    /// the symbol that the dot stepped over.
    pub open(crate) spec fn fits_together(&self, e: int, k: int, d: Derivation) -> bool {
        self.grammar.links(self.sets(), e, k, d)
    }

    /// An item has a derivation exactly if its dot has moved, and every
    /// derivation of every item names items that fit together.
    pub proof fn law_derivations(&self, e: int, k: int, i: int)
        requires
            self.wf(),
            0 <= e < self.sets().len(),
            0 <= k < self.sets()[e].len(),
        ensures
            (self.sets()[e][k].derivs.len() == 0) == (self.sets()[e][k].dot == 0),
            0 <= i < self.sets()[e][k].derivs.len() ==> self.fits_together(
                e,
                k,
                self.sets()[e][k].derivs[i],
            ),
    {
        let sets = self.sets();
        let g = self.grammar;
        let toks = self.input();
        assert(g.item_ok(toks, sets, e, k));
        if 0 <= i < sets[e][k].derivs.len() {
            let d = sets[e][k].derivs[i];
            assert(g.deriv_ok(toks, sets, e, sets[e][k].key(), k, d, i == 0));
            match d {
                Derivation::Complete { origin, pred, cause } => {
                    assert(g.item_ok(toks, sets, origin as int, pred as int));
                    assert(g.item_ok(toks, sets, e, cause as int));
                },
                _ => {},
            }
        }
    }

    /// How many state sets there are: one more than tokens.
    pub fn num_sets(&self) -> (r: usize)
        ensures
            r == self.input().len() + 1,
            r == self.sets().len(),
    {
        proof {
            use_type_invariant(self);
        }
        self.sets.len()
    }

    /// The items of set `e` in the order in which they were found, if
    /// there is such a set.
    pub fn set(&self, e: usize) -> (r: Option<&Vec<Item>>)
        ensures
            r is Some == (e <= self.input().len()),
            r matches Some(items) ==> items@ == self.sets()[e as int],
    {
        proof {
            use_type_invariant(self);
        }
        if e < self.sets.len() {
            Some(&self.sets[e])
        } else {
            None
        }
    }

    /// The text of the token at position `at`, if there is one.
    pub fn token(&self, at: usize) -> (r: Option<&String>)
        ensures
            r is Some == (at < self.input().len()),
            r matches Some(text) ==> text@ == self.input()[at as int],
    {
        if at < self.tokens.len() {
            Some(&self.tokens[at])
        } else {
            None
        }
    }

    /// The positions, in the last set, of the accepting items: the
    /// completed rules of the start symbol that began at the front of the
    /// input. There is at least one.
    pub fn accepting_items(&self) -> (r: Vec<usize>)
        ensures
            r.len() > 0,
            forall|i: int|
                0 <= i < r.len() ==> (#[trigger] r[i]) < self.sets()[self.input().len() as int].len()
                    && self.grammar().accepting(
                    self.sets()[self.input().len() as int][r[i] as int].key(),
                ),
            forall|i: int, j: int| 0 <= i < j < r.len() ==> (#[trigger] r[i]) < (#[trigger] r[j]),
            forall|k: int|
                0 <= k < self.sets()[self.input().len() as int].len() && self.grammar().accepting(
                    (#[trigger] self.sets()[self.input().len() as int][k]).key(),
                ) ==> r@.contains(k as usize),
    {
        proof {
            use_type_invariant(self);
        }
        let g = self.grammar;
        let n = self.tokens.len();
        let last = &self.sets[n];
        let ghost set = self.sets()[n as int];
        let mut out: Vec<usize> = Vec::new();
        let mut k: usize = 0;
        while k < last.len()
            invariant
                k <= last.len(),
                self.wf(),
                g == self.grammar,
                n == self.tokens.len(),
                *last == self.sets[n as int],
                set == last@,
                set == self.sets()[n as int],
                forall|i: int| 0 <= i < out.len() ==> (#[trigger] out[i]) < k && g.accepting(set[out[i] as int].key()),
                forall|i: int, j: int| 0 <= i < j < out.len() ==> (#[trigger] out[i]) < (#[trigger] out[j]),
                forall|j: int|
                    0 <= j < k && g.accepting((#[trigger] set[j]).key()) ==> out@.contains(j as usize),
            decreases last.len() - k,
        {
            proof {
                assert(g.item_ok(self.input(), self.sets(), n as int, k as int));
            }
            let rule = last[k].rule;
            if last[k].start == 0 && last[k].dot == g.rules[rule].body.len() && g.rules[rule].head
                == g.start {
                let ghost before = out@;
                out.push(k);
                proof {
                    assert forall|j: int|
                        0 <= j < k + 1 && g.accepting((#[trigger] set[j]).key()) implies out@.contains(
                        j as usize,
                    ) by {
                        if j < k {
                            let i = choose|i: int| 0 <= i < before.len() && before[i] == j as usize;
                            assert(out@[i] == j as usize);
                        } else {
                            assert(out@[out.len() - 1] == k);
                        }
                    }
                }
            }
            k += 1;
        }
        proof {
            assert(g.accepting(set[self.accept as int].key()));
            assert(out@.contains(self.accept));
        }
        out
    }
}

} // verus!
