//! Walking the state sets of an accepted input: one parse, or all of them.
use crate::chart::{holds, Derivation, Item, Key};
use crate::forest::listed;
use crate::grammar::Grammar;
use crate::nullable::ranks_ok;
use crate::parser::ParseState;
use crate::tree::{fringe_of, lemma_node_view, tidy_parse, views, Tree, TreeView};
use vstd::prelude::*;

verus! {

/// Whether `tree` is structurally equal to one of `trees`.
pub fn contains_tree(trees: &Vec<Tree>, tree: &Tree) -> (r: bool)
    ensures
        r == exists|i: int| 0 <= i < trees.len() && (#[trigger] trees[i])@ == tree@,
{
    let mut i: usize = 0;
    while i < trees.len()
        invariant
            i <= trees.len(),
            forall|j: int| 0 <= j < i ==> (#[trigger] trees[j])@ != tree@,
        decreases trees.len() - i,
    {
        if trees[i].same(tree) {
            return true;
        }
        i += 1;
    }
    false
}

impl<'a> ParseState<'a> {
    /// The parse that `eval_one` returns: for the empty input the shortest
    /// derivation tree of the empty string; else the tree of the first
    /// accepting item of the last set that follows the first derivation of
    /// every item.
    pub open(crate) spec fn first_parse(&self) -> TreeView {
        if self.tokens.len() == 0 {
            self.grammar.shortest_empty_parse()
        } else {
            let n = self.tokens.len() as int;
            TreeView::Node(
                self.grammar.rules[self.sets[n][self.accept as int].rule as int].label@,
                self.grammar.first_forest(self.input(), self.sets(), n, self.accept as int),
            )
        }
    }

    /// `first_parse` is a tidy parse of the input; for the empty input it
    /// is the shortest one.
    pub proof fn law_first_parse(&self)
        requires
            self.wf(),
        ensures
            self.grammar().parses(self.first_parse(), self.input()),
            tidy_parse(self.first_parse(), self.input().len()),
            self.input().len() == 0 ==> self.first_parse() == self.grammar().shortest_empty_parse(),
    {
        let g = self.grammar;
        let n = self.tokens.len() as int;
        let toks = self.input();
        if n == 0 {
            g.lemma_accepted(toks, self.sets(), self.accept as int);
            g.law_shortest_empty_parse(TreeView::Leaf(Seq::empty(), Seq::empty()));
            assert(toks =~= Seq::<Seq<char>>::empty());
        } else {
            let sets = self.sets();
            let key = sets[n][self.accept as int].key();
            let kids = g.first_forest(toks, sets, n, self.accept as int);
            g.lemma_first_forest(toks, sets, n, self.accept as int);
            g.lemma_forest_node(toks, key, n, kids);
            assert(toks.subrange(0, n) =~= toks);
            let stack = seq![key.rule as usize];
            assert(sets[n][self.accept as int].key() == key);
            assert(g.above(sets, n, 0, key.rule, self.accept as int));
            g.lemma_first_tidy(toks, sets, n, self.accept as int, n, stack);
            assert(g.labels_of(stack) =~= Seq::<Seq<char>>::empty().push(g.rules[key.rule].label@));
            assert(self.first_parse().fringe() == fringe_of(kids));
        }
    }

    /// The forest of item `k` of set `e` along first derivations.
    pub(crate) fn forest_one(&self, e: usize, k: usize) -> (r: Vec<Tree>)
        requires
            e < self.sets.len(),
            k < self.sets[e as int].len(),
        ensures
            views(r@) == self.grammar.first_forest(self.input(), self.sets(), e as int, k as int),
        decreases e, k,
    {
        proof {
            use_type_invariant(self);
        }
        let g = self.grammar;
        let ghost toks = self.input();
        let ghost sets = self.sets();
        let it = &self.sets[e][k];
        proof {
            assert(sets[e as int] == self.sets[e as int]@);
            assert(g.item_ok(toks, sets, e as int, k as int));
        }
        if it.dot == 0 {
            let none: Vec<Tree> = Vec::new();
            proof {
                assert(views(none@) =~= Seq::<TreeView>::empty());
            }
            return none;
        }
        let d = it.derivs[0];
        proof {
            assert(g.deriv_ok(toks, sets, e as int, it.key(), k as int, d, true));
        }
        match d {
            Derivation::Scan { pred } => {
                proof {
                    assert(sets[e - 1] == self.sets[e - 1]@);
                    assert(g.item_ok(toks, sets, e - 1, pred as int));
                    g.lemma_rule_named(self.sets[e - 1][pred as int].rule as int);
                }
                let mut forest = self.forest_one(e - 1, pred);
                let p = &self.sets[e - 1][pred];
                let x = g.rules[p.rule].body[p.dot];
                let leaf = Tree::Leaf(g.symbols[x].name_text(), self.tokens[e - 1].clone());
                let ghost before = forest@;
                forest.push(leaf);
                proof {
                    assert(views(forest@) =~= views(before).push(leaf@));
                }
                forest
            },
            Derivation::Nullable { pred } => {
                proof {
                    assert(g.item_ok(toks, sets, e as int, pred as int));
                    g.lemma_rule_named(self.sets[e as int][pred as int].rule as int);
                }
                let mut forest = self.forest_one(e, pred);
                let p = &self.sets[e][pred];
                let x = g.rules[p.rule].body[p.dot];
                let tree = g.epsilon_tree(x);
                let ghost before = forest@;
                forest.push(tree);
                proof {
                    assert(views(forest@) =~= views(before).push(tree@));
                }
                forest
            },
            Derivation::Complete { origin, pred, cause } => {
                proof {
                    assert(sets[origin as int] == self.sets[origin as int]@);
                    assert(g.item_ok(toks, sets, origin as int, pred as int));
                }
                let mut forest = self.forest_one(origin, pred);
                let kids = self.forest_one(e, cause);
                let label = g.rules[self.sets[e][cause].rule].label.clone();
                let ghost before = forest@;
                proof {
                    lemma_node_view(label, kids);
                }
                let tree = Tree::Node(label, kids);
                forest.push(tree);
                proof {
                    assert(views(forest@) =~= views(before).push(tree@));
                }
                forest
            },
        }
    }
}

/// Builds concrete syntax trees from the state sets of an accepted input.
pub struct TreeBuilder {}

impl Tree {
    /// A builder of concrete syntax trees.
    pub fn builder() -> TreeBuilder {
        TreeBuilder {  }
    }
}

impl TreeBuilder {
    /// One parse of the input: `first_parse`.
    pub fn eval_one(&self, state: &ParseState) -> (r: Tree)
        ensures
            state.wf(),
            r@ == state.first_parse(),
            state.grammar().parses(r@, state.input()),
            tidy_parse(r@, state.input().len()),
            state.input().len() == 0 ==> r@ == state.grammar().shortest_empty_parse(),
    {
        proof {
            use_type_invariant(state);
            state.law_first_parse();
        }
        let g = state.grammar;
        let n = state.tokens.len();
        if n == 0 {
            proof {
                use_type_invariant(g);
                g.lemma_accepted(state.input(), state.sets(), state.accept as int);
                g.law_shortest_empty_parse(TreeView::Leaf(Seq::empty(), Seq::empty()));
                assert(state.input() =~= Seq::<Seq<char>>::empty());
            }
            let start = g.start;
            assert(g.nullable[start as int]);
            assert(ranks_ok(g.rules@, g.nullable@, g.chosen@, g.ranks()));
            g.epsilon_tree(start)
        } else {
            let kids = state.forest_one(n, state.accept);
            let label = g.rules[state.sets[n][state.accept].rule].label.clone();
            proof {
                lemma_node_view(label, kids);
            }
            Tree::Node(label, kids)
        }
    }

    /// Every parse of the input that applies no rule again within its own
    /// application to the same input, none of them twice: the tidy trees
    /// of the accepting items, or for the empty input the loose derivation
    /// trees of the empty string for the start symbol, among them the
    /// shortest.
    pub fn eval_all(&self, state: &ParseState) -> (r: Vec<Tree>)
        ensures
            state.wf(),
            forall|i: int|
                0 <= i < r.len() ==> state.grammar().parses((#[trigger] r[i])@, state.input())
                    && tidy_parse(r[i]@, state.input().len()),
            forall|tree: TreeView|
                #[trigger] state.grammar().parses(tree, state.input()) && tidy_parse(
                    tree,
                    state.input().len(),
                ) ==> listed(r@, tree),
            forall|i: int, j: int| 0 <= i < j < r.len() ==> (#[trigger] r[i])@ != (#[trigger] r[j])@,
            listed(r@, state.first_parse()),
            r.len() > 0,
    {
        proof {
            use_type_invariant(state);
            state.law_first_parse();
        }
        let g = state.grammar;
        let n = state.tokens.len();
        let ghost toks = state.input();
        let ghost sets = state.sets();
        let none: Vec<usize> = Vec::new();
        proof {
            use_type_invariant(g);
            assert(none@ =~= Seq::<usize>::empty());
            g.lemma_labels(none@, 0);
            assert(sets[n as int] == state.sets[n as int]@);
        }
        let mut out: Vec<Tree> = Vec::new();
        if n == 0 {
            let found = g.all_empty(g.start, &none);
            proof {
                assert(toks =~= Seq::<Seq<char>>::empty());
                g.lemma_accepted(toks, sets, state.accept as int);
                g.law_shortest_empty_parse(TreeView::Leaf(Seq::empty(), Seq::empty()));
            }
            add_unique(&mut out, found);
            proof {
                assert forall|i: int| 0 <= i < out.len() implies g.parses((#[trigger] out[i])@, toks)
                    && tidy_parse(out[i]@, 0) by {
                    assert(listed(out@, out[i]@));
                    assert(listed(found@, out[i]@));
                    let j = choose|j: int| 0 <= j < found.len() && (#[trigger] found[j])@ == out[i]@;
                    assert(g.empty_wanted(g.start as int, g.labels_of(none@), found[j]@));
                    assert(found[j]@.fringe() =~= toks);
                }
                assert forall|tree: TreeView|
                    #[trigger] g.parses(tree, toks) && tidy_parse(tree, 0) implies listed(
                    out@,
                    tree,
                ) by {
                    assert(g.empty_wanted(g.start as int, g.labels_of(none@), tree));
                }
                assert(g.empty_wanted(
                    g.start as int,
                    g.labels_of(none@),
                    g.shortest_empty_parse(),
                ));
            }
            return out;
        }
        let last = &state.sets[n];
        let ghost path = g.labels_of(none@);
        let mut memo = state.new_memo();
        let mut k: usize = 0;
        while k < last.len()
            invariant
                k <= last.len(),
                state.wf(),
                g == state.grammar,
                toks == state.input(),
                sets == state.sets(),
                n == state.tokens.len(),
                n > 0,
                *last == state.sets[n as int],
                sets[n as int] == last@,
                state.memo_ok(memo),
                none@ == Seq::<usize>::empty(),
                path == g.labels_of(none@),
                path == Seq::<Seq<char>>::empty(),
                forall|i: int|
                    0 <= i < out.len() ==> g.parses((#[trigger] out[i])@, toks) && tidy_parse(
                        out[i]@,
                        n as nat,
                    ),
                forall|i: int, j: int|
                    0 <= i < j < out.len() ==> (#[trigger] out[i])@ != (#[trigger] out[j])@,
                forall|j: int, tree: TreeView|
                    0 <= j < k && g.accepting(sets[n as int][j].key()) && #[trigger] g.tree_wanted(
                        toks,
                        sets[n as int][j].key(),
                        n as int,
                        path,
                        tree,
                    ) ==> listed(out@, tree),
            decreases last.len() - k,
        {
            proof {
                assert(g.item_ok(toks, sets, n as int, k as int));
            }
            let rule = last[k].rule;
            if last[k].start == 0 && last[k].dot == g.rules[rule].body.len() && g.rules[rule].head
                == g.start {
                let found = state.all_trees(n, k, &none, &mut memo);
                let ghost key = sets[n as int][k as int].key();
                let ghost before = out@;
                add_unique(&mut out, found);
                proof {
                    assert(toks.subrange(0, n as int) =~= toks);
                    assert forall|i: int| 0 <= i < out.len() implies g.parses(
                        (#[trigger] out[i])@,
                        toks,
                    ) && tidy_parse(out[i]@, n as nat) by {
                        assert(listed(out@, out[i]@));
                        if listed(before, out[i]@) {
                            let j = choose|j: int|
                                0 <= j < before.len() && (#[trigger] before[j])@ == out[i]@;
                        } else {
                            let j = choose|j: int|
                                0 <= j < found.len() && (#[trigger] found[j])@ == out[i]@;
                            let tree = found[j]@;
                            assert(g.tree_wanted(toks, key, n as int, path, tree));
                            g.lemma_forest_node(toks, key, n as int, tree->Node_1);
                            assert(tree.fringe() == fringe_of(tree->Node_1));
                        }
                    }
                    assert forall|j: int, tree: TreeView|
                        0 <= j < k + 1 && g.accepting(sets[n as int][j].key())
                            && #[trigger] g.tree_wanted(
                            toks,
                            sets[n as int][j].key(),
                            n as int,
                            path,
                            tree,
                        ) implies listed(out@, tree) by {
                        if j < k {
                            assert(listed(before, tree));
                        } else {
                            assert(j == k);
                            assert(g.tree_wanted(
                                state.input(),
                                state.key(n as int, k as int),
                                n as int,
                                g.labels_of(none@),
                                tree,
                            ));
                            assert(listed(found@, tree));
                        }
                    }
                }
            }
            k += 1;
        }
        proof {
            assert forall|tree: TreeView|
                #[trigger] g.parses(tree, toks) && tidy_parse(tree, n as nat) implies listed(
                out@,
                tree,
            ) by {
                let j = g.lemma_parse_item(toks, sets, tree);
                assert(g.tree_wanted(toks, sets[n as int][j].key(), n as int, path, tree));
            }
        }
        out
    }
}

/// Puts the trees of `found` that are not in `out` yet behind the trees of
/// `out`.
pub(crate) fn add_unique(out: &mut Vec<Tree>, found: Vec<Tree>)
    requires
        forall|i: int, j: int|
            0 <= i < j < old(out).len() ==> (#[trigger] old(out)[i])@ != (#[trigger] old(out)[j])@,
    ensures
        forall|i: int, j: int|
            0 <= i < j < final(out).len() ==> (#[trigger] final(out)[i])@ != (
            #[trigger] final(out)[j])@,
        forall|tree: TreeView|
            #[trigger] listed(final(out)@, tree) == (listed(old(out)@, tree) || listed(found@, tree)),
{
    let mut i: usize = 0;
    while i < found.len()
        invariant
            i <= found.len(),
            forall|p: int, q: int| 0 <= p < q < out.len() ==> (#[trigger] out[p])@ != (#[trigger] out[q])@,
            forall|tree: TreeView|
                #[trigger] listed(out@, tree) == (listed(old(out)@, tree) || listed(
                    found@.subrange(0, i as int),
                    tree,
                )),
        decreases found.len() - i,
    {
        let ghost before = out@;
        let ghost seen = found@.subrange(0, i as int);
        let ghost more = found@.subrange(0, i + 1);
        let added = !contains_tree(out, &found[i]);
        if added {
            out.push(found[i].clone());
        }
        proof {
            assert forall|tree: TreeView|
                #[trigger] listed(out@, tree) == (listed(old(out)@, tree) || listed(more, tree)) by {
                assert(listed(before, tree) == (listed(old(out)@, tree) || listed(seen, tree)));
                if listed(out@, tree) {
                    let p = choose|p: int| 0 <= p < out.len() && (#[trigger] out[p])@ == tree;
                    if p < before.len() {
                        assert(before[p]@ == tree);
                        if listed(seen, tree) {
                            let q = choose|q: int| 0 <= q < seen.len() && (#[trigger] seen[q])@ == tree;
                            assert(more[q]@ == tree);
                        }
                    } else {
                        assert(more[i as int]@ == tree);
                    }
                }
                if listed(old(out)@, tree) {
                    assert(listed(before, tree));
                    let p = choose|p: int| 0 <= p < before.len() && (#[trigger] before[p])@ == tree;
                    assert(out@[p]@ == tree);
                }
                if listed(more, tree) {
                    let q = choose|q: int| 0 <= q < more.len() && (#[trigger] more[q])@ == tree;
                    if q < i {
                        assert(seen[q]@ == tree);
                        assert(listed(before, tree));
                        let p = choose|p: int| 0 <= p < before.len() && (#[trigger] before[p])@ == tree;
                        assert(out@[p]@ == tree);
                    } else if added {
                        assert(out@[out.len() - 1]@ == tree);
                    } else {
                        let p = choose|p: int| 0 <= p < before.len() && (#[trigger] before[p])@ == tree;
                        assert(out@[p]@ == tree);
                    }
                }
            }
        }
        i += 1;
    }
    proof {
        assert(found@.subrange(0, found.len() as int) =~= found@);
    }
}

impl Grammar {
    /// A tidy parse of input that is not empty is a tree of an accepting
    /// item of the last set.
    pub(crate) proof fn lemma_parse_item(
        &self,
        tokens: Seq<Seq<char>>,
        sets: Seq<Seq<Item>>,
        tree: TreeView,
    ) -> (k: int)
        requires
            self.wf(),
            sets.len() == tokens.len() + 1,
            tokens.len() > 0,
            self.closed(tokens, sets, tokens.len() as int, sets[tokens.len() as int].len() as int),
            self.parses(tree, tokens),
            tree.tidy(Seq::empty(), 0),
        ensures
            0 <= k < sets[tokens.len() as int].len(),
            self.accepting(sets[tokens.len() as int][k].key()),
            self.tree_wanted(
                tokens,
                sets[tokens.len() as int][k].key(),
                tokens.len() as int,
                Seq::empty(),
                tree,
            ),
    {
        let n = tokens.len() as int;
        match tree {
            TreeView::Leaf(terminal, lexeme) => {
                self.lemma_leaf(terminal, lexeme, self.start as int);
                0
            },
            TreeView::Node(label, kids) => {
                let r = self.lemma_node_rule(label, kids, self.start as int);
                self.lemma_rule_named(r);
                let seed = Key { rule: r, dot: 0, start: 0 };
                assert(self.rules[r].head == self.start);
                assert(holds(sets, 0, seed));
                assert(tokens.subrange(0, n) =~= tokens);
                self.lemma_forest_reached(tokens, sets, seed, 0, kids, n);
                let full = Key { rule: r, dot: kids.len() as int, start: 0 };
                let k = choose|k: int| 0 <= k < sets[n].len() && (#[trigger] sets[n][k]).key() == full;
                assert(tree.fringe() == fringe_of(kids));
                k
            },
        }
    }
}

} // verus!
