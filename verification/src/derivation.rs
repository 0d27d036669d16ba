//! What the state sets say about derivations: every item stands for a
//! derivation of input, and every derivation of input has its items.
use crate::chart::{holds, Derivation, Item, Key};
use crate::grammar::Grammar;
use crate::tree::{fringe_of, lemma_fringe_push, TreeView};
use vstd::prelude::*;

verus! {

impl Grammar {
    /// Whether `forest` derives the body symbols before the dot of `key`,
    /// one tree per symbol, and its leaves spell the input from the key's
    /// start to position `e`.
    pub open(crate) spec fn forest_ok(
        &self,
        tokens: Seq<Seq<char>>,
        key: Key,
        e: int,
        forest: Seq<TreeView>,
    ) -> bool {
        &&& forest.len() == key.dot
        &&& forall|i: int|
            0 <= i < forest.len() ==> self.derives(
                #[trigger] forest[i],
                self.sym_name(self.rules[key.rule].body[i] as int),
            )
        &&& 0 <= key.start <= e <= tokens.len()
        &&& fringe_of(forest) == tokens.subrange(key.start, e)
    }

    /// A forest for an item, with a tree for the symbol after its dot that
    /// spells the input that follows, is a forest for the item with the dot
    /// one step further.
    pub(crate) proof fn lemma_forest_step(
        &self,
        tokens: Seq<Seq<char>>,
        key: Key,
        m: int,
        e: int,
        forest: Seq<TreeView>,
        tree: TreeView,
    )
        requires
            self.wf(),
            self.key_ok(key),
            !self.is_complete(key),
            self.forest_ok(tokens, key, m, forest),
            m <= e <= tokens.len(),
            self.derives(tree, self.sym_name(self.next_symbol(key))),
            tree.fringe() == tokens.subrange(m, e),
        ensures
            self.forest_ok(tokens, key.advanced(), e, forest.push(tree)),
    {
        let more = forest.push(tree);
        lemma_fringe_push(forest, tree);
        assert(tokens.subrange(key.start, m) + tokens.subrange(m, e) =~= tokens.subrange(
            key.start,
            e,
        ));
        assert forall|i: int| 0 <= i < more.len() implies self.derives(
            #[trigger] more[i],
            self.sym_name(self.rules[key.rule].body[i] as int),
        ) by {
            if i < forest.len() {
                assert(more[i] == forest[i]);
            }
        }
    }

    /// A forest for a completed item makes a node that derives the head of
    /// the item's rule and spells what the forest spells.
    pub(crate) proof fn lemma_forest_node(
        &self,
        tokens: Seq<Seq<char>>,
        key: Key,
        e: int,
        forest: Seq<TreeView>,
    )
        requires
            self.wf(),
            self.key_ok(key),
            self.is_complete(key),
            self.forest_ok(tokens, key, e, forest),
        ensures
            self.derives(
                TreeView::Node(self.rules[key.rule].label@, forest),
                self.sym_name(self.rules[key.rule].head as int),
            ),
            TreeView::Node(self.rules[key.rule].label@, forest).fringe() == tokens.subrange(
                key.start,
                e,
            ),
    {
        self.lemma_node(key.rule, forest);
    }

    /// The forest of the item at position `k` of set `e` that follows the
    /// first derivation of every item, and takes the shortest tree for
    /// every nullable symbol that was stepped over without input.
    pub(crate) open spec fn first_forest(
        &self,
        tokens: Seq<Seq<char>>,
        sets: Seq<Seq<Item>>,
        e: int,
        k: int,
    ) -> Seq<TreeView>
        decreases e, k,
        when self.wf() && self.sound(tokens, sets) && 0 <= e < sets.len() && e <= tokens.len() && 0
            <= k < sets[e].len()
        via Self::first_forest_decreases
    {
        let it = sets[e][k];
        if it.dot == 0 {
            Seq::empty()
        } else {
            match it.derivs[0] {
                Derivation::Scan { pred } => self.first_forest(tokens, sets, e - 1, pred as int).push(
                    TreeView::Leaf(
                        self.sym_name(self.next_symbol(sets[e - 1][pred as int].key())),
                        tokens[e - 1],
                    ),
                ),
                Derivation::Nullable { pred } => self.first_forest(tokens, sets, e, pred as int).push(
                    self.epsilon_view(self.next_symbol(sets[e][pred as int].key())),
                ),
                Derivation::Complete { origin, pred, cause } => self.first_forest(
                    tokens,
                    sets,
                    origin as int,
                    pred as int,
                ).push(
                    TreeView::Node(
                        self.rules[sets[e][cause as int].rule as int].label@,
                        self.first_forest(tokens, sets, e, cause as int),
                    ),
                ),
            }
        }
    }

    #[via_fn]
    proof fn first_forest_decreases(
        &self,
        tokens: Seq<Seq<char>>,
        sets: Seq<Seq<Item>>,
        e: int,
        k: int,
    ) {
        let it = sets[e][k];
        assert(self.item_ok(tokens, sets, e, k));
        if it.dot > 0 {
            assert(self.deriv_ok(tokens, sets, e, it.key(), k, it.derivs[0], true));
        }
    }

    /// The first forest of an item is a forest for it.
    pub(crate) proof fn lemma_first_forest(
        &self,
        tokens: Seq<Seq<char>>,
        sets: Seq<Seq<Item>>,
        e: int,
        k: int,
    )
        requires
            self.wf(),
            self.sound(tokens, sets),
            0 <= e < sets.len(),
            e <= tokens.len(),
            0 <= k < sets[e].len(),
        ensures
            self.forest_ok(tokens, sets[e][k].key(), e, self.first_forest(tokens, sets, e, k)),
        decreases e, k,
    {
        let it = sets[e][k];
        assert(self.item_ok(tokens, sets, e, k));
        self.lemma_rule_named(it.rule as int);
        if it.dot == 0 {
            let none = Seq::<TreeView>::empty();
            assert(fringe_of(none) =~= tokens.subrange(it.key().start, e));
        } else {
            let d = it.derivs[0];
            assert(self.deriv_ok(tokens, sets, e, it.key(), k, d, true));
            match d {
                Derivation::Scan { pred } => {
                    let p = sets[e - 1][pred as int].key();
                    assert(self.item_ok(tokens, sets, e - 1, pred as int));
                    self.lemma_first_forest(tokens, sets, e - 1, pred as int);
                    let before = self.first_forest(tokens, sets, e - 1, pred as int);
                    self.lemma_leaf_step(tokens, p, e, before);
                },
                Derivation::Nullable { pred } => {
                    let p = sets[e][pred as int].key();
                    assert(self.item_ok(tokens, sets, e, pred as int));
                    self.lemma_first_forest(tokens, sets, e, pred as int);
                    let before = self.first_forest(tokens, sets, e, pred as int);
                    let x = self.next_symbol(p);
                    let tree = self.epsilon_view(x);
                    self.lemma_epsilon_view(x);
                    assert(tree.fringe() =~= tokens.subrange(e, e));
                    self.lemma_forest_step(tokens, p, e, e, before, tree);
                },
                Derivation::Complete { origin, pred, cause } => {
                    let p = sets[origin as int][pred as int].key();
                    let c = sets[e][cause as int].key();
                    assert(self.item_ok(tokens, sets, origin as int, pred as int));
                    self.lemma_first_forest(tokens, sets, origin as int, pred as int);
                    self.lemma_first_forest(tokens, sets, e, cause as int);
                    let before = self.first_forest(tokens, sets, origin as int, pred as int);
                    let kids = self.first_forest(tokens, sets, e, cause as int);
                    self.lemma_forest_node(tokens, c, e, kids);
                    let tree = TreeView::Node(self.rules[c.rule].label@, kids);
                    self.lemma_forest_step(tokens, p, origin as int, e, before, tree);
                },
            }
        }
    }

    /// A forest for an item whose next symbol is a terminal that matches
    /// the token at the forest's end, with a leaf for that token, is a
    /// forest for the item with the dot one step further.
    pub(crate) proof fn lemma_leaf_step(
        &self,
        tokens: Seq<Seq<char>>,
        key: Key,
        e: int,
        forest: Seq<TreeView>,
    )
        requires
            self.wf(),
            self.key_ok(key),
            !self.is_complete(key),
            1 <= e <= tokens.len(),
            self.forest_ok(tokens, key, e - 1, forest),
            self.symbols[self.next_symbol(key)].accepts(tokens[e - 1]),
        ensures
            self.forest_ok(
                tokens,
                key.advanced(),
                e,
                forest.push(TreeView::Leaf(self.sym_name(self.next_symbol(key)), tokens[e - 1])),
            ),
    {
        let x = self.next_symbol(key);
        self.lemma_rule_named(key.rule);
        let leaf = TreeView::Leaf(self.sym_name(x), tokens[e - 1]);
        self.lemma_leaf(self.sym_name(x), tokens[e - 1], x);
        assert(leaf.fringe() =~= tokens.subrange(e - 1, e));
        self.lemma_forest_step(tokens, key, e - 1, e, forest, leaf);
    }

    /// A forest for an item whose dot has moved is a forest for the item
    /// with the dot one step earlier, followed by a tree for the symbol
    /// before the dot that spells the rest.
    pub(crate) proof fn lemma_forest_last(
        &self,
        tokens: Seq<Seq<char>>,
        key: Key,
        e: int,
        forest: Seq<TreeView>,
    )
        requires
            self.forest_ok(tokens, key, e, forest),
            key.dot > 0,
        ensures
            key.start <= e - forest.last().fringe().len(),
            self.forest_ok(
                tokens,
                key.back(),
                e - forest.last().fringe().len(),
                forest.drop_last(),
            ),
            self.derives(
                forest.last(),
                self.sym_name(self.rules[key.rule].body[key.dot - 1] as int),
            ),
            forest.last().fringe() == tokens.subrange(e - forest.last().fringe().len(), e),
            forest == forest.drop_last().push(forest.last()),
    {
        let rest = forest.drop_last();
        let last = forest.last();
        let whole = tokens.subrange(key.start, e);
        let m = key.start + fringe_of(rest).len();
        assert(fringe_of(forest) == fringe_of(rest) + last.fringe());
        assert(fringe_of(rest).len() + last.fringe().len() == e - key.start);
        assert(fringe_of(rest) =~= tokens.subrange(key.start, m)) by {
            assert forall|i: int| 0 <= i < fringe_of(rest).len() implies fringe_of(rest)[i]
                == tokens.subrange(key.start, m)[i] by {
                assert(whole[i] == fringe_of(rest)[i]);
            }
        }
        assert(last.fringe() =~= tokens.subrange(m, e)) by {
            assert forall|i: int| 0 <= i < last.fringe().len() implies last.fringe()[i]
                == tokens.subrange(m, e)[i] by {
                assert(whole[fringe_of(rest).len() + i] == last.fringe()[i]);
            }
        }
        assert forall|i: int| 0 <= i < rest.len() implies self.derives(
            #[trigger] rest[i],
            self.sym_name(self.rules[key.rule].body[i] as int),
        ) by {
            assert(rest[i] == forest[i]);
        }
        assert(forest[forest.len() - 1] == last);
        assert(forest =~= rest.push(last));
    }

    /// An item of sound state sets has its rule, with the dot at the
    /// front, in the set where it began.
    pub(crate) proof fn lemma_item_rooted(
        &self,
        tokens: Seq<Seq<char>>,
        sets: Seq<Seq<Item>>,
        e: int,
        k: int,
    )
        requires
            self.wf(),
            self.sound(tokens, sets),
            0 <= e < sets.len(),
            0 <= k < sets[e].len(),
        ensures
            holds(
                sets,
                sets[e][k].start as int,
                Key { rule: sets[e][k].rule as int, dot: 0, start: sets[e][k].start as int },
            ),
        decreases sets[e][k].dot,
    {
        let it = sets[e][k];
        assert(self.item_ok(tokens, sets, e, k));
        if it.dot == 0 {
            assert(sets[e][k].key() == Key { rule: it.rule as int, dot: 0, start: it.start as int });
        } else {
            let d = it.derivs[0];
            assert(self.deriv_ok(tokens, sets, e, it.key(), k, d, true));
            match d {
                Derivation::Scan { pred } => {
                    self.lemma_item_rooted(tokens, sets, e - 1, pred as int);
                },
                Derivation::Nullable { pred } => {
                    self.lemma_item_rooted(tokens, sets, e, pred as int);
                },
                Derivation::Complete { origin, pred, cause } => {
                    self.lemma_item_rooted(tokens, sets, origin as int, pred as int);
                },
            }
        }
    }

    /// Closed state sets hold the item that a forest leads to: from an item
    /// of set `e`, trees for the symbols after its dot that spell the input
    /// from `e` to `e2` lead to the item with the dot behind those symbols
    /// in set `e2`.
    pub(crate) proof fn lemma_forest_reached(
        &self,
        tokens: Seq<Seq<char>>,
        sets: Seq<Seq<Item>>,
        key: Key,
        e: int,
        trees: Seq<TreeView>,
        e2: int,
    )
        requires
            self.wf(),
            sets.len() == tokens.len() + 1,
            self.closed(tokens, sets, tokens.len() as int, sets[tokens.len() as int].len() as int),
            self.key_ok(key),
            holds(sets, e, key),
            0 <= e <= e2 <= tokens.len(),
            key.dot + trees.len() <= self.rules[key.rule].body.len(),
            forall|i: int|
                0 <= i < trees.len() ==> self.derives(
                    #[trigger] trees[i],
                    self.sym_name(self.rules[key.rule].body[key.dot + i] as int),
                ),
            fringe_of(trees) == tokens.subrange(e, e2),
        ensures
            holds(sets, e2, Key { rule: key.rule, dot: key.dot + trees.len(), start: key.start }),
        decreases trees,
    {
        if trees.len() == 0 {
            assert(tokens.subrange(e, e2).len() == 0);
        } else {
            let n = tokens.len() as int;
            let rest = trees.drop_last();
            let last = trees.last();
            let m = e + fringe_of(rest).len();
            assert(fringe_of(trees) == fringe_of(rest) + last.fringe());
            assert(fringe_of(rest).len() + last.fringe().len() == e2 - e);
            assert(fringe_of(rest) =~= tokens.subrange(e, m)) by {
                assert forall|i: int| 0 <= i < fringe_of(rest).len() implies fringe_of(rest)[i]
                    == tokens.subrange(e, m)[i] by {
                    assert(fringe_of(trees)[i] == fringe_of(rest)[i]);
                }
            }
            assert(last.fringe() =~= tokens.subrange(m, e2)) by {
                assert forall|i: int| 0 <= i < last.fringe().len() implies last.fringe()[i]
                    == tokens.subrange(m, e2)[i] by {
                    assert(fringe_of(trees)[fringe_of(rest).len() + i] == last.fringe()[i]);
                }
            }
            assert forall|i: int| 0 <= i < rest.len() implies self.derives(
                #[trigger] rest[i],
                self.sym_name(self.rules[key.rule].body[key.dot + i] as int),
            ) by {
                assert(rest[i] == trees[i]);
            }
            self.lemma_forest_reached(tokens, sets, key, e, rest, m);
            let before = Key { rule: key.rule, dot: key.dot + rest.len(), start: key.start };
            let after = before.advanced();
            let k = choose|k: int| 0 <= k < sets[m].len() && (#[trigger] sets[m][k]).key() == before;
            assert(self.processed(tokens, sets, m, k));
            self.lemma_rule_named(key.rule);
            let x = self.next_symbol(before);
            assert(self.derives(last, self.sym_name(x))) by {
                assert(trees[trees.len() - 1] == last);
            }
            match last {
                TreeView::Leaf(terminal, lexeme) => {
                    self.lemma_leaf(terminal, lexeme, x);
                    assert(last.fringe().len() == 1);
                    assert(tokens.subrange(m, e2)[0] == lexeme);
                },
                TreeView::Node(label, kids) => {
                    let r = self.lemma_node_rule(label, kids, x);
                    self.lemma_rule_named(r);
                    if m == e2 {
                        self.lemma_rank_least(last, x);
                    } else {
                        let seed = Key { rule: r, dot: 0, start: m };
                        assert(holds(sets, m, seed));
                        self.lemma_forest_reached(tokens, sets, seed, m, kids, e2);
                        let full = Key { rule: r, dot: kids.len() as int, start: m };
                        let c = choose|c: int|
                            0 <= c < sets[e2].len() && (#[trigger] sets[e2][c]).key() == full;
                        assert(self.processed(tokens, sets, e2, c));
                        assert(self.waits_for(sets[m][k].key(), r));
                    }
                },
            }
        }
    }
}

} // verus!
