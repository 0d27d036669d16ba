//! Derivations of the empty string: the shortest one of every nullable
//! symbol, and the proof that none is shorter.
use crate::grammar::{rule_ok, Grammar};
use crate::nullable::{body_within, chosen_ok, closed_below};
use crate::tree::{
    lemma_fringe_none, lemma_fringe_parts, lemma_height_bound, lemma_height_parts,
    lemma_node_view, max_height, views, Tree, TreeView,
};
use vstd::prelude::*;

verus! {

impl Grammar {
    /// The shortest derivation tree of the empty string for symbol `x`: a
    /// node of the rule chosen for `x`, over the shortest trees of its body
    /// symbols.
    pub(crate) open spec fn epsilon_view(&self, x: int) -> TreeView
        decreases self.ranks()[x],
        when self.wf() && 0 <= x < self.symbols.len() && self.ranks()[x] > 0
        via Self::epsilon_view_decreases
    {
        let r = self.chosen[x] as int;
        TreeView::Node(self.rules[r].label@, self.epsilon_views(x))
    }

    /// The shortest trees of the body symbols of the rule chosen for `x`.
    pub(crate) open spec fn epsilon_views(&self, x: int) -> Seq<TreeView>
        decreases self.ranks()[x], 0nat,
        when self.wf() && 0 <= x < self.symbols.len() && self.ranks()[x] > 0
        via Self::epsilon_views_decreases
    {
        let r = self.chosen[x] as int;
        Seq::new(
            self.rules[r].body.len() as nat,
            |k: int|
                if 0 <= k < self.rules[r].body.len() {
                    self.epsilon_view(self.rules[r].body[k] as int)
                } else {
                    TreeView::Leaf(Seq::empty(), Seq::empty())
                },
        )
    }

    #[via_fn]
    proof fn epsilon_view_decreases(&self, x: int) {
    }

    #[via_fn]
    proof fn epsilon_views_decreases(&self, x: int) {
        let r = self.chosen[x] as int;
        assert(chosen_ok(self.rules@, self.ranks(), self.chosen@, x));
        assert(rule_ok(self.symbols@, self.rules[r]));
        assert forall|k: int| 0 <= k < self.rules[r].body.len() implies self.ranks()[(
        #[trigger] self.rules[r].body[k]) as int] < self.ranks()[x] by {}
    }
}

impl Grammar {
    /// The shortest tree of a nullable symbol derives that symbol, has no
    /// leaves, and is as high as the symbol's rank.
    pub(crate) proof fn lemma_epsilon_view(&self, x: int)
        requires
            self.wf(),
            0 <= x < self.symbols.len(),
            self.ranks()[x] > 0,
        ensures
            self.derives(self.epsilon_view(x), self.sym_name(x)),
            self.epsilon_view(x).fringe().len() == 0,
            self.epsilon_view(x).height() <= self.ranks()[x],
        decreases self.ranks()[x],
    {
        let r = self.chosen[x] as int;
        let kids = self.epsilon_views(x);
        assert(chosen_ok(self.rules@, self.ranks(), self.chosen@, x));
        self.lemma_rule_named(r);
        let bound = (self.ranks()[x] - 1) as nat;
        assert forall|k: int| 0 <= k < kids.len() implies self.derives(
            #[trigger] kids[k],
            self.sym_name(self.rules[r].body[k] as int),
        ) && kids[k].fringe().len() == 0 && kids[k].height() <= bound by {
            let y = self.rules[r].body[k] as int;
            assert(0 < self.ranks()[y] <= bound);
            self.lemma_epsilon_view(y);
        }
        self.lemma_node(r, kids);
        lemma_fringe_none(kids);
        lemma_height_bound(kids, bound);
    }

    /// A symbol that derives the empty string is ranked, and no derivation
    /// tree of the empty string for it is lower than its rank.
    pub(crate) proof fn lemma_rank_least(&self, tree: TreeView, x: int)
        requires
            self.wf(),
            0 <= x < self.symbols.len(),
            self.derives(tree, self.sym_name(x)),
            tree.fringe().len() == 0,
        ensures
            0 < self.ranks()[x] <= tree.height(),
        decreases tree,
    {
        match tree {
            TreeView::Leaf(_, _) => {},
            TreeView::Node(label, kids) => {
                let r = self.lemma_node_rule(label, kids, x);
                self.lemma_rule_named(r);
                let bound = max_height(kids);
                assert forall|k: int| 0 <= k < self.rules[r].body.len() implies 0 < self.ranks()[(
                #[trigger] self.rules[r].body[k]) as int] <= bound by {
                    lemma_fringe_parts(kids, k);
                    lemma_height_parts(kids, k);
                    self.lemma_rank_least(kids[k], self.rules[r].body[k] as int);
                }
                assert(closed_below(self.rules@, self.ranks(), r, bound));
            },
        }
    }

    /// The shortest tree of a nullable symbol carries no label of a rule
    /// whose head has a greater rank, and none twice on a path.
    pub(crate) proof fn lemma_epsilon_loose(&self, x: int, stack: Seq<usize>)
        requires
            self.wf(),
            0 <= x < self.symbols.len(),
            self.ranks()[x] > 0,
            forall|i: int|
                0 <= i < stack.len() ==> (#[trigger] stack[i]) < self.rules.len()
                    && self.ranks()[self.rules[stack[i] as int].head as int] > self.ranks()[x],
        ensures
            self.epsilon_view(x).loose(self.labels_of(stack)),
        decreases self.ranks()[x],
    {
        let r = self.chosen[x];
        let kids = self.epsilon_views(x);
        let path = self.labels_of(stack);
        let label = self.rules[r as int].label@;
        assert(chosen_ok(self.rules@, self.ranks(), self.chosen@, x));
        self.lemma_rule_named(r as int);
        if path.contains(label) {
            let i = choose|i: int| 0 <= i < path.len() && path[i] == label;
            self.lemma_same_label(stack[i] as int, r as int);
        }
        let more = stack.push(r);
        assert(self.labels_of(more) =~= path.push(label));
        assert forall|k: int| 0 <= k < kids.len() implies (#[trigger] kids[k]).loose(
            path.push(label),
        ) by {
            let y = self.rules[r as int].body[k] as int;
            assert(0 < self.ranks()[y] < self.ranks()[x]);
            assert forall|i: int| 0 <= i < more.len() implies (#[trigger] more[i]) < self.rules.len()
                && self.ranks()[self.rules[more[i] as int].head as int] > self.ranks()[y] by {
                if i < stack.len() {
                    assert(more[i] == stack[i]);
                }
            }
            self.lemma_epsilon_loose(y, more);
        }
    }

    /// The shortest derivation tree of the empty string for the start
    /// symbol: at every node the first rule, in the order in which the
    /// rules were added, that gives the least height.
    pub open(crate) spec fn shortest_empty_parse(&self) -> TreeView {
        self.epsilon_view(self.start as int)
    }

    /// Whether the start symbol derives the empty string.
    pub open(crate) spec fn start_nullable(&self) -> bool {
        self.nullable[self.start as int]
    }

    /// The empty input is a sentence exactly if the start symbol is
    /// nullable; then `shortest_empty_parse` is a parse of it, and no parse
    /// of the empty input is lower. So a parse that is strictly lower than
    /// every other one is `shortest_empty_parse`.
    pub proof fn law_shortest_empty_parse(&self, tree: TreeView)
        requires
            self.wf(),
        ensures
            self.start_nullable() == self.generates(Seq::empty()),
            self.start_nullable() ==> self.parses(self.shortest_empty_parse(), Seq::empty())
                && self.shortest_empty_parse().loose(Seq::empty()),
            self.parses(tree, Seq::empty()) ==> self.shortest_empty_parse().height()
                <= tree.height(),
            self.parses(tree, Seq::empty()) && (forall|other: TreeView|
                self.parses(other, Seq::empty()) && other != tree ==> tree.height()
                    < #[trigger] other.height()) ==> self.shortest_empty_parse() == tree,
    {
        let x = self.start as int;
        let none = Seq::<Seq<char>>::empty();
        if self.start_nullable() {
            self.lemma_epsilon_view(x);
            assert(self.epsilon_view(x).fringe() =~= none);
            assert(self.parses(self.epsilon_view(x), none));
            self.lemma_epsilon_loose(x, Seq::empty());
            assert(self.labels_of(Seq::empty()) =~= Seq::<Seq<char>>::empty());
        }
        if self.generates(none) {
            let t = choose|t: TreeView| self.parses(t, none);
            self.lemma_rank_least(t, x);
        }
        if self.parses(tree, none) {
            self.lemma_rank_least(tree, x);
            self.lemma_epsilon_view(x);
            assert(self.epsilon_view(x).fringe() =~= none);
        }
    }

    /// Whether the symbol with index `x` derives the empty string.
    pub(crate) fn is_nullable(&self, x: usize) -> (r: bool)
        requires
            x < self.symbols.len(),
        ensures
            r == (self.ranks()[x as int] > 0),
    {
        proof {
            use_type_invariant(self);
        }
        self.nullable[x]
    }

    /// Builds the shortest derivation tree of the empty string for the
    /// nullable symbol `x`.
    pub(crate) fn epsilon_tree(&self, x: usize) -> (r: Tree)
        requires
            x < self.symbols.len(),
            self.ranks()[x as int] > 0,
        ensures
            r@ == self.epsilon_view(x as int),
        decreases self.ranks()[x as int],
    {
        proof {
            use_type_invariant(self);
            assert(chosen_ok(self.rules@, self.ranks(), self.chosen@, x as int));
        }
        let r = self.chosen[x];
        proof {
            self.lemma_rule_named(r as int);
        }
        let rule = &self.rules[r];
        let mut kids: Vec<Tree> = Vec::new();
        let mut k: usize = 0;
        while k < rule.body.len()
            invariant
                k <= rule.body.len(),
                self.wf(),
                x < self.symbols.len(),
                self.ranks()[x as int] > 0,
                r == self.chosen[x as int],
                r < self.rules.len(),
                *rule == self.rules[r as int],
                body_within(self.ranks(), rule.body@, (self.ranks()[x as int] - 1) as nat),
                forall|j: int| 0 <= j < rule.body.len() ==> (#[trigger] rule.body[j]) < self.symbols.len(),
                kids.len() == k,
                forall|j: int| 0 <= j < k ==> (#[trigger] kids[j])@ == self.epsilon_view(rule.body[j] as int),
            decreases rule.body.len() - k,
        {
            let y = rule.body[k];
            assert(0 < self.ranks()[rule.body[k as int] as int] < self.ranks()[x as int]);
            kids.push(self.epsilon_tree(y));
            k += 1;
        }
        let label = rule.label.clone();
        proof {
            lemma_node_view(label, kids);
            assert(views(kids@) =~= self.epsilon_views(x as int));
        }
        Tree::Node(label, kids)
    }
}

} // verus!
