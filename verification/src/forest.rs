//! Enumerating derivation trees: every tree of an item, and every
//! derivation tree of the empty string for a nullable symbol, in which no
//! rule is applied again within its own application to the same input.
use crate::chart::{holds, records, Derivation, Item, Key};
use crate::grammar::Grammar;
use crate::parser::ParseState;
use crate::tree::{
    duplicate_all, fringe_of, lemma_fringe_none, lemma_fringe_parts, lemma_node_view, views, Tree,
    TreeView,
};
use vstd::prelude::*;
use vstd::set_lib::{lemma_int_range, lemma_len_subset, set_int_range};

verus! {

/// Whether one of `trees` is `tree`.
pub open spec fn listed(trees: Seq<Tree>, tree: TreeView) -> bool {
    exists|i: int| 0 <= i < trees.len() && (#[trigger] trees[i])@ == tree
}

/// Whether one of `forests` is `forest`.
pub open spec fn listed_forest(forests: Seq<Vec<Tree>>, forest: Seq<TreeView>) -> bool {
    exists|i: int| 0 <= i < forests.len() && views((#[trigger] forests[i])@) == forest
}

/// Whether `forest` is one of `prefixes` followed by one of `trees`.
pub open spec fn is_product(prefixes: Seq<Vec<Tree>>, trees: Seq<Tree>, forest: Seq<TreeView>) -> bool {
    exists|a: int, b: int|
        0 <= a < prefixes.len() && 0 <= b < trees.len() && forest == #[trigger] views(
            prefixes[a]@,
        ).push(trees[b]@)
}

/// Every forest of `prefixes` followed by every tree of `trees`, and
/// nothing else.
pub(crate) fn cross(prefixes: &Vec<Vec<Tree>>, trees: &Vec<Tree>) -> (r: Vec<Vec<Tree>>)
    ensures
        forall|i: int|
            0 <= i < r.len() ==> is_product(prefixes@, trees@, views((#[trigger] r[i])@)),
        forall|a: int, b: int|
            0 <= a < prefixes.len() && 0 <= b < trees.len() ==> listed_forest(
                r@,
                #[trigger] views(prefixes[a]@).push(trees[b]@),
            ),
{
    let mut out: Vec<Vec<Tree>> = Vec::new();
    let mut a: usize = 0;
    while a < prefixes.len()
        invariant
            a <= prefixes.len(),
            forall|i: int|
                0 <= i < out.len() ==> is_product(prefixes@, trees@, views((#[trigger] out[i])@)),
            forall|p: int, q: int|
                0 <= p < a && 0 <= q < trees.len() ==> listed_forest(
                    out@,
                    #[trigger] views(prefixes[p]@).push(trees[q]@),
                ),
        decreases prefixes.len() - a,
    {
        let mut b: usize = 0;
        while b < trees.len()
            invariant
                a < prefixes.len(),
                b <= trees.len(),
                forall|i: int|
                    0 <= i < out.len() ==> is_product(
                        prefixes@,
                        trees@,
                        views((#[trigger] out[i])@),
                    ),
                forall|p: int, q: int|
                    0 <= p < a && 0 <= q < trees.len() ==> listed_forest(
                        out@,
                        #[trigger] views(prefixes[p]@).push(trees[q]@),
                    ),
                forall|q: int|
                    0 <= q < b ==> listed_forest(
                        out@,
                        #[trigger] views(prefixes[a as int]@).push(trees[q]@),
                    ),
            decreases trees.len() - b,
        {
            let mut forest = duplicate_all(&prefixes[a]);
            let ghost before = forest@;
            forest.push(trees[b].clone());
            proof {
                assert(views(forest@) =~= views(before).push(trees[b as int]@));
                assert(views(forest@) == views(prefixes[a as int]@).push(trees[b as int]@));
                assert(is_product(prefixes@, trees@, views(forest@)));
            }
            let ghost old_out = out@;
            out.push(forest);
            proof {
                assert forall|f: Seq<TreeView>| listed_forest(old_out, f) implies listed_forest(
                    out@,
                    f,
                ) by {
                    let i = choose|i: int|
                        0 <= i < old_out.len() && views((#[trigger] old_out[i])@) == f;
                    assert(views(out@[i]@) == f);
                }
                assert(views(out@[out.len() - 1]@) == views(prefixes[a as int]@).push(
                    trees[b as int]@,
                ));
            }
            b += 1;
        }
        a += 1;
    }
    out
}

/// Whether `x` is in `stack`.
pub(crate) fn in_stack(stack: &Vec<usize>, x: usize) -> (r: bool)
    ensures
        r == stack@.contains(x),
{
    let mut i: usize = 0;
    while i < stack.len()
        invariant
            i <= stack.len(),
            forall|j: int| 0 <= j < i ==> stack[j] != x,
        decreases stack.len() - i,
    {
        if stack[i] == x {
            return true;
        }
        i += 1;
    }
    false
}

/// A copy of `stack` with `x` on top.
pub(crate) fn with_top(stack: &Vec<usize>, x: usize) -> (r: Vec<usize>)
    ensures
        r@ == stack@.push(x),
{
    let mut out: Vec<usize> = Vec::new();
    let mut i: usize = 0;
    while i < stack.len()
        invariant
            i <= stack.len(),
            out@ == stack@.subrange(0, i as int),
        decreases stack.len() - i,
    {
        out.push(stack[i]);
        assert(out@ =~= stack@.subrange(0, i + 1));
        i += 1;
    }
    out.push(x);
    assert(out@ =~= stack@.push(x));
    out
}

/// Distinct numbers below `bound` are at most `bound` many.
pub proof fn lemma_stack_room(stack: Seq<usize>, bound: int)
    requires
        0 <= bound,
        stack.no_duplicates(),
        forall|i: int| 0 <= i < stack.len() ==> (#[trigger] stack[i]) < bound,
    ensures
        stack.len() <= bound,
{
    let codes = Seq::new(stack.len(), |i: int| stack[i] as int);
    assert(codes.no_duplicates());
    codes.unique_seq_to_set();
    if stack.len() > 0 {
        assert(stack[0] < bound);
        lemma_int_range(0, bound);
        assert(codes.to_set().subset_of(set_int_range(0, bound))) by {
            assert forall|c: int| codes.to_set().contains(c) implies set_int_range(
                0,
                bound,
            ).contains(c) by {
                let k = choose|k: int| 0 <= k < codes.len() && codes[k] == c;
                assert(stack[k] < bound);
            }
        }
        lemma_len_subset(codes.to_set(), set_int_range(0, bound));
    }
}

impl Grammar {
    /// Whether `stack` holds rules of the grammar, none of them twice.
    pub open(crate) spec fn stack_ok(&self, stack: Seq<usize>) -> bool {
        stack.no_duplicates() && forall|i: int|
            0 <= i < stack.len() ==> (#[trigger] stack[i]) < self.rules.len()
    }

    /// The printed forms of the rules of `stack`.
    pub open(crate) spec fn labels_of(&self, stack: Seq<usize>) -> Seq<Seq<char>> {
        Seq::new(stack.len(), |i: int| self.rules[stack[i] as int].label@)
    }

    /// A rule is on a stack exactly if its printed form is among the
    /// stack's; a rule that is not goes on top, and the stack has room for
    /// it.
    pub(crate) proof fn lemma_labels(&self, stack: Seq<usize>, r: usize)
        requires
            self.wf(),
            self.stack_ok(stack),
            r < self.rules.len(),
        ensures
            self.labels_of(stack).contains(self.rules[r as int].label@) == stack.contains(r),
            self.labels_of(stack.push(r)) == self.labels_of(stack).push(self.rules[r as int].label@),
            !stack.contains(r) ==> self.stack_ok(stack.push(r)) && stack.len() < self.rules.len(),
            self.labels_of(Seq::empty()) == Seq::<Seq<char>>::empty(),
    {
        let labels = self.labels_of(stack);
        let label = self.rules[r as int].label@;
        if labels.contains(label) {
            let i = choose|i: int| 0 <= i < labels.len() && labels[i] == label;
            let q = stack[i];
            if q < r {
                assert(self.rules[q as int].label@ != self.rules[r as int].label@);
            }
            if r < q {
                assert(self.rules[r as int].label@ != self.rules[q as int].label@);
            }
            assert(stack[i] == r);
        }
        if stack.contains(r) {
            let i = choose|i: int| 0 <= i < stack.len() && stack[i] == r;
            assert(labels[i] == label);
        }
        assert(self.labels_of(stack.push(r)) =~= labels.push(label));
        assert(self.labels_of(Seq::empty()) =~= Seq::<Seq<char>>::empty());
        if !stack.contains(r) {
            let more = stack.push(r);
            assert forall|i: int, j: int| 0 <= i < more.len() && 0 <= j < more.len() && i != j implies more[i] != more[j] by {
                if i < stack.len() && j < stack.len() {
                    assert(stack[i] != stack[j]);
                }
            }
            lemma_stack_room(more, self.rules.len() as int);
        }
    }

    /// Whether `forest` holds a derivation tree of the empty string for
    /// each of the first `upto` body symbols of rule `r`.
    pub open(crate) spec fn empty_forest_ok(&self, r: int, upto: int, forest: Seq<TreeView>) -> bool {
        &&& forest.len() == upto
        &&& forall|i: int|
            0 <= i < forest.len() ==> self.derives(
                #[trigger] forest[i],
                self.sym_name(self.rules[r].body[i] as int),
            ) && forest[i].fringe().len() == 0
    }

    /// Whether `tree` is a derivation tree of the empty string for symbol
    /// `x` that is loose under `path`.
    pub open(crate) spec fn empty_wanted(&self, x: int, path: Seq<Seq<char>>, tree: TreeView) -> bool {
        self.derives(tree, self.sym_name(x)) && tree.fringe().len() == 0 && tree.loose(path)
    }

    /// Whether `forest` holds such trees for the first `upto` body symbols
    /// of rule `r`.
    pub open(crate) spec fn empty_forest_wanted(
        &self,
        r: int,
        upto: int,
        path: Seq<Seq<char>>,
        forest: Seq<TreeView>,
    ) -> bool {
        self.empty_forest_ok(r, upto, forest) && forall|i: int|
            0 <= i < forest.len() ==> (#[trigger] forest[i]).loose(path)
    }

    /// A wanted tree of the empty string is a node of a rule of its symbol
    /// that is not on the stack, over a wanted forest.
    pub(crate) proof fn lemma_empty_node(&self, x: int, stack: Seq<usize>, tree: TreeView) -> (r: int)
        requires
            self.wf(),
            0 <= x < self.symbols.len(),
            self.stack_ok(stack),
            self.empty_wanted(x, self.labels_of(stack), tree),
        ensures
            0 <= r < self.rules.len(),
            self.rules[r].head == x,
            !stack.contains(r as usize),
            tree == TreeView::Node(self.rules[r].label@, tree->Node_1),
            self.empty_forest_wanted(
                r,
                self.rules[r].body.len() as int,
                self.labels_of(stack.push(r as usize)),
                tree->Node_1,
            ),
    {
        match tree {
            TreeView::Leaf(_, _) => {
                assert(false);
                0
            },
            TreeView::Node(label, kids) => {
                let r = self.lemma_node_rule(label, kids, x);
                self.lemma_labels(stack, r as usize);
                assert forall|i: int| 0 <= i < kids.len() implies (#[trigger] kids[i]).fringe().len()
                    == 0 by {
                    lemma_fringe_parts(kids, i);
                }
                r
            },
        }
    }

    /// Every derivation tree of the empty string for symbol `x` in which
    /// no rule of `stack` is applied, and no rule within its own
    /// application.
    pub(crate) fn all_empty(&self, x: usize, stack: &Vec<usize>) -> (out: Vec<Tree>)
        requires
            x < self.symbols.len(),
            self.stack_ok(stack@),
        ensures
            forall|i: int|
                0 <= i < out.len() ==> self.empty_wanted(
                    x as int,
                    self.labels_of(stack@),
                    (#[trigger] out[i])@,
                ),
            forall|tree: TreeView|
                #[trigger] self.empty_wanted(x as int, self.labels_of(stack@), tree) ==> listed(
                    out@,
                    tree,
                ),
        decreases self.rules.len() - stack.len(), 0nat, 0nat,
    {
        proof {
            use_type_invariant(self);
        }
        let ghost path = self.labels_of(stack@);
        let mut out: Vec<Tree> = Vec::new();
        let mut r: usize = 0;
        while r < self.rules.len()
            invariant
                r <= self.rules.len(),
                self.wf(),
                x < self.symbols.len(),
                self.stack_ok(stack@),
                path == self.labels_of(stack@),
                forall|i: int|
                    0 <= i < out.len() ==> self.empty_wanted(x as int, path, (#[trigger] out[i])@),
                forall|tree: TreeView|
                    #[trigger] self.empty_wanted(x as int, path, tree) && self.made_before(
                        tree,
                        r as int,
                    ) ==> listed(out@, tree),
            decreases self.rules.len() - r,
        {
            let ghost before = out@;
            if self.rules[r].head == x && !in_stack(stack, r) {
                proof {
                    self.lemma_rule_named(r as int);
                    self.lemma_labels(stack@, r);
                }
                let inner = with_top(stack, r);
                let forests = self.all_empty_forests(r, self.rules[r].body.len(), &inner);
                let mut f: usize = 0;
                while f < forests.len()
                    invariant
                        f <= forests.len(),
                        self.wf(),
                        r < self.rules.len(),
                        self.rules[r as int].head == x,
                        x < self.symbols.len(),
                        !path.contains(self.rules[r as int].label@),
                        forall|i: int|
                            0 <= i < forests.len() ==> self.empty_forest_wanted(
                                r as int,
                                self.rules[r as int].body.len() as int,
                                path.push(self.rules[r as int].label@),
                                views((#[trigger] forests[i])@),
                            ),
                        forall|i: int|
                            0 <= i < out.len() ==> self.empty_wanted(
                                x as int,
                                path,
                                (#[trigger] out[i])@,
                            ),
                        before.len() <= out.len(),
                        forall|i: int| 0 <= i < before.len() ==> (#[trigger] out[i]) == before[i],
                        forall|j: int|
                            0 <= j < f ==> listed(
                                out@,
                                TreeView::Node(
                                    self.rules[r as int].label@,
                                    views((#[trigger] forests[j])@),
                                ),
                            ),
                    decreases forests.len() - f,
                {
                    let kids = duplicate_all(&forests[f]);
                    let label = self.rules[r].label.clone();
                    let tree = Tree::Node(label, kids);
                    proof {
                        lemma_node_view(label, kids);
                        assert(self.empty_forest_wanted(
                            r as int,
                            self.rules[r as int].body.len() as int,
                            path.push(self.rules[r as int].label@),
                            views(forests[f as int]@),
                        ));
                        self.lemma_node(r as int, views(kids@));
                        lemma_fringe_none(views(kids@));
                    }
                    let ghost old_out = out@;
                    out.push(tree);
                    proof {
                        assert forall|j: int| 0 <= j < f + 1 implies listed(
                            out@,
                            TreeView::Node(
                                self.rules[r as int].label@,
                                views((#[trigger] forests[j])@),
                            ),
                        ) by {
                            let t = TreeView::Node(
                                self.rules[r as int].label@,
                                views(forests[j]@),
                            );
                            if j < f {
                                let i = choose|i: int|
                                    0 <= i < old_out.len() && (#[trigger] old_out[i])@ == t;
                                assert(out@[i]@ == t);
                            } else {
                                assert(out@[out.len() - 1]@ == t);
                            }
                        }
                    }
                    f += 1;
                }
                proof {
                    assert forall|tree: TreeView|
                        #[trigger] self.empty_wanted(x as int, path, tree) && self.made_by(
                            tree,
                            r as int,
                        ) implies listed(out@, tree) by {
                        let q = self.lemma_empty_node(x as int, stack@, tree);
                        self.lemma_same_label(q, r as int);
                        let kids = tree->Node_1;
                        assert(listed_forest(forests@, kids));
                        let j = choose|j: int|
                            0 <= j < forests.len() && views((#[trigger] forests[j])@) == kids;
                        assert(listed(
                            out@,
                            TreeView::Node(self.rules[r as int].label@, views(forests[j]@)),
                        ));
                    }
                }
            } else {
                proof {
                    assert forall|tree: TreeView|
                        #[trigger] self.empty_wanted(x as int, path, tree) && self.made_by(
                            tree,
                            r as int,
                        ) implies listed(out@, tree) by {
                        let q = self.lemma_empty_node(x as int, stack@, tree);
                        self.lemma_same_label(q, r as int);
                    }
                }
            }
            proof {
                assert forall|tree: TreeView|
                    #[trigger] self.empty_wanted(x as int, path, tree) && self.made_before(
                        tree,
                        r + 1,
                    ) implies listed(out@, tree) by {
                    if self.made_before(tree, r as int) {
                        assert(listed(before, tree));
                        let i = choose|i: int| 0 <= i < before.len() && (#[trigger] before[i])@ == tree;
                        assert(out@[i]@ == tree);
                    } else {
                        assert(self.made_by(tree, r as int));
                    }
                }
            }
            r += 1;
        }
        proof {
            assert forall|tree: TreeView|
                #[trigger] self.empty_wanted(x as int, path, tree) implies listed(out@, tree) by {
                let q = self.lemma_empty_node(x as int, stack@, tree);
                assert(self.made_by(tree, q));
            }
        }
        out
    }

    /// Whether `tree` is a node with the printed form of rule `r`.
    pub open(crate) spec fn made_by(&self, tree: TreeView, r: int) -> bool {
        tree matches TreeView::Node(label, _) && label == self.rules[r].label@
    }

    /// Whether `tree` is a node with the printed form of a rule before `r`.
    pub open(crate) spec fn made_before(&self, tree: TreeView, r: int) -> bool {
        exists|q: int| 0 <= q < r && q < self.rules.len() && #[trigger] self.made_by(tree, q)
    }

    /// Rules that are printed alike are one rule.
    pub(crate) proof fn lemma_same_label(&self, q: int, r: int)
        requires
            self.wf(),
            0 <= q < self.rules.len(),
            0 <= r < self.rules.len(),
            self.rules[q].label@ == self.rules[r].label@,
        ensures
            q == r,
    {
        if q < r {
            assert(self.rules[q].label@ != self.rules[r].label@);
        }
        if r < q {
            assert(self.rules[r].label@ != self.rules[q].label@);
        }
    }

    /// Every forest of derivation trees of the empty string for the first
    /// `upto` body symbols of rule `r` in which no rule of `stack` is
    /// applied, and no rule within its own application.
    pub(crate) fn all_empty_forests(&self, r: usize, upto: usize, stack: &Vec<usize>) -> (out: Vec<
        Vec<Tree>,
    >)
        requires
            r < self.rules.len(),
            upto <= self.rules[r as int].body.len(),
            self.stack_ok(stack@),
        ensures
            forall|i: int|
                0 <= i < out.len() ==> self.empty_forest_wanted(
                    r as int,
                    upto as int,
                    self.labels_of(stack@),
                    views((#[trigger] out[i])@),
                ),
            forall|forest: Seq<TreeView>|
                #[trigger] self.empty_forest_wanted(
                    r as int,
                    upto as int,
                    self.labels_of(stack@),
                    forest,
                ) ==> listed_forest(out@, forest),
        decreases self.rules.len() - stack.len(), 1nat, upto,
    {
        proof {
            use_type_invariant(self);
            self.lemma_rule_named(r as int);
        }
        let ghost path = self.labels_of(stack@);
        let mut out: Vec<Vec<Tree>> = Vec::new();
        if upto == 0 {
            let none: Vec<Tree> = Vec::new();
            proof {
                assert(views(none@) =~= Seq::<TreeView>::empty());
            }
            out.push(none);
            proof {
                assert forall|forest: Seq<TreeView>|
                    #[trigger] self.empty_forest_wanted(r as int, 0, path, forest) implies listed_forest(
                    out@,
                    forest,
                ) by {
                    assert(forest =~= views(out@[0]@));
                }
            }
            return out;
        }
        let x = self.rules[r].body[upto - 1];
        if !self.is_nullable(x) {
            proof {
                assert forall|forest: Seq<TreeView>|
                    #[trigger] self.empty_forest_wanted(
                        r as int,
                        upto as int,
                        path,
                        forest,
                    ) implies listed_forest(out@, forest) by {
                    self.lemma_rank_least(forest[upto - 1], x as int);
                }
            }
            return out;
        }
        let prefixes = self.all_empty_forests(r, upto - 1, stack);
        let trees = self.all_empty(x, stack);
        let out = cross(&prefixes, &trees);
        proof {
            assert forall|i: int| 0 <= i < out.len() implies self.empty_forest_wanted(
                r as int,
                upto as int,
                path,
                views((#[trigger] out[i])@),
            ) by {
                let (a, b) = choose|a: int, b: int|
                    0 <= a < prefixes.len() && 0 <= b < trees.len() && views(out[i]@)
                        == #[trigger] views(prefixes[a]@).push(trees[b]@);
                let before = views(prefixes[a]@);
                let forest = views(out[i]@);
                assert(self.empty_forest_wanted(r as int, upto - 1, path, before));
                assert(self.empty_wanted(x as int, path, trees[b]@));
                assert forall|q: int| 0 <= q < forest.len() implies self.derives(
                    #[trigger] forest[q],
                    self.sym_name(self.rules[r as int].body[q] as int),
                ) && forest[q].fringe().len() == 0 && forest[q].loose(path) by {
                    if q < before.len() {
                        assert(forest[q] == before[q]);
                    }
                }
            }
            assert forall|forest: Seq<TreeView>|
                #[trigger] self.empty_forest_wanted(
                    r as int,
                    upto as int,
                    path,
                    forest,
                ) implies listed_forest(out@, forest) by {
                let before = forest.drop_last();
                let last = forest.last();
                assert(self.empty_forest_wanted(r as int, upto - 1, path, before)) by {
                    assert forall|q: int| 0 <= q < before.len() implies self.derives(
                        #[trigger] before[q],
                        self.sym_name(self.rules[r as int].body[q] as int),
                    ) && before[q].fringe().len() == 0 && before[q].loose(path) by {
                        assert(before[q] == forest[q]);
                    }
                }
                assert(self.empty_wanted(x as int, path, last)) by {
                    assert(last == forest[upto - 1]);
                }
                assert(listed_forest(prefixes@, before));
                assert(listed(trees@, last));
                let a = choose|a: int|
                    0 <= a < prefixes.len() && views((#[trigger] prefixes[a])@) == before;
                let b = choose|b: int| 0 <= b < trees.len() && (#[trigger] trees[b])@ == last;
                assert(forest =~= views(prefixes[a]@).push(trees[b]@));
                assert(listed_forest(out@, views(prefixes[a]@).push(trees[b]@)));
            }
        }
        out
    }
}

impl Grammar {
    /// Whether `forest`, a forest of an item with key `key` of set `e`,
    /// ends as derivation `d` says: with a leaf behind a forest of the
    /// item that scanned, with a tree without leaves behind a forest of
    /// the item that stepped over a nullable symbol, or with a node of the
    /// completed item's rule, over the input that the item spans, behind a
    /// forest of the item that waited for it.
    pub open(crate) spec fn via(
        &self,
        sets: Seq<Seq<Item>>,
        e: int,
        key: Key,
        forest: Seq<TreeView>,
        d: Derivation,
    ) -> bool {
        let last = forest.last();
        let m = e - last.fringe().len();
        match d {
            Derivation::Scan { pred } => {
                &&& last is Leaf
                &&& e >= 1
                &&& pred < sets[e - 1].len()
                &&& sets[e - 1][pred as int].key() == key.back()
            },
            Derivation::Nullable { pred } => {
                &&& last is Node
                &&& m == e
                &&& pred < sets[e].len()
                &&& sets[e][pred as int].key() == key.back()
            },
            Derivation::Complete { origin, pred, cause } => {
                &&& last is Node
                &&& origin == m
                &&& 0 <= m < e
                &&& pred < sets[m].len()
                &&& sets[m][pred as int].key() == key.back()
                &&& cause < sets[e].len()
                &&& self.key_ok(sets[e][cause as int].key())
                &&& self.is_complete(sets[e][cause as int].key())
                &&& sets[e][cause as int].key().start == m
                &&& self.made_by(last, sets[e][cause as int].rule as int)
            },
        }
    }

    /// What the last step of a forest needs of the sets: they are closed,
    /// and the item before the step is at position `p` of set `m`.
    pub open(crate) spec fn step_ready(
        &self,
        tokens: Seq<Seq<char>>,
        sets: Seq<Seq<Item>>,
        key: Key,
        e: int,
        last: TreeView,
        m: int,
        p: int,
    ) -> bool {
        &&& self.wf()
        &&& sets.len() == tokens.len() + 1
        &&& self.closed(tokens, sets, tokens.len() as int, sets[tokens.len() as int].len() as int)
        &&& forall|i: int| 0 <= i < sets.len() ==> (#[trigger] sets[i]).len() <= usize::MAX
        &&& self.key_ok(key)
        &&& key.dot > 0
        &&& 0 <= key.start <= m <= e <= tokens.len()
        &&& m == e - last.fringe().len()
        &&& last.fringe() == tokens.subrange(m, e)
        &&& self.derives(last, self.sym_name(self.next_symbol(key.back())))
        &&& 0 <= p < sets[m].len()
        &&& sets[m][p].key() == key.back()
    }

    /// A forest that ends with a leaf ends as a scan says.
    pub(crate) proof fn lemma_last_leaf(
        &self,
        tokens: Seq<Seq<char>>,
        sets: Seq<Seq<Item>>,
        key: Key,
        e: int,
        forest: Seq<TreeView>,
        m: int,
        p: int,
    )
        requires
            self.step_ready(tokens, sets, key, e, forest.last(), m, p),
            forest.last() is Leaf,
        ensures
            records(sets, e, key, Derivation::Scan { pred: p as usize }),
            self.via(sets, e, key, forest, Derivation::Scan { pred: p as usize }),
    {
        let last = forest.last();
        let x = self.next_symbol(key.back());
        self.lemma_rule_named(key.rule);
        assert(self.processed(tokens, sets, m, p));
        assert(key.back().advanced() == key);
        self.lemma_leaf(last->Leaf_0, last->Leaf_1, x);
        assert(last.fringe().len() == 1);
        assert(tokens.subrange(m, e)[0] == last->Leaf_1);
    }

    /// A forest that ends with a tree without leaves ends as a step over
    /// a nullable symbol says.
    pub(crate) proof fn lemma_last_empty(
        &self,
        tokens: Seq<Seq<char>>,
        sets: Seq<Seq<Item>>,
        key: Key,
        e: int,
        forest: Seq<TreeView>,
        m: int,
        p: int,
    )
        requires
            self.step_ready(tokens, sets, key, e, forest.last(), m, p),
            forest.last() is Node,
            m == e,
        ensures
            records(sets, e, key, Derivation::Nullable { pred: p as usize }),
            self.via(sets, e, key, forest, Derivation::Nullable { pred: p as usize }),
    {
        let last = forest.last();
        let x = self.next_symbol(key.back());
        self.lemma_rule_named(key.rule);
        assert(self.processed(tokens, sets, m, p));
        assert(key.back().advanced() == key);
        let r = self.lemma_node_rule(last->Node_0, last->Node_1, x);
        self.lemma_rule_named(r);
        self.lemma_rank_least(last, x);
    }

    /// A forest that ends with a node over input ends as a completion
    /// says.
    pub(crate) proof fn lemma_last_span(
        &self,
        tokens: Seq<Seq<char>>,
        sets: Seq<Seq<Item>>,
        key: Key,
        e: int,
        forest: Seq<TreeView>,
        m: int,
        p: int,
    ) -> (c: int)
        requires
            self.step_ready(tokens, sets, key, e, forest.last(), m, p),
            forest.last() is Node,
            m < e,
        ensures
            0 <= c < sets[e].len(),
            records(
                sets,
                e,
                key,
                Derivation::Complete { origin: m as usize, pred: p as usize, cause: c as usize },
            ),
            self.via(
                sets,
                e,
                key,
                forest,
                Derivation::Complete { origin: m as usize, pred: p as usize, cause: c as usize },
            ),
    {
        let last = forest.last();
        let x = self.next_symbol(key.back());
        self.lemma_rule_named(key.rule);
        assert(self.processed(tokens, sets, m, p));
        assert(key.back().advanced() == key);
        let kids = last->Node_1;
        let r = self.lemma_node_rule(last->Node_0, kids, x);
        self.lemma_rule_named(r);
        let first = Key { rule: r, dot: 0, start: m };
        assert(holds(sets, m, first));
        self.lemma_forest_reached(tokens, sets, first, m, kids, e);
        let full = Key { rule: r, dot: kids.len() as int, start: m };
        let c = choose|c: int| 0 <= c < sets[e].len() && (#[trigger] sets[e][c]).key() == full;
        assert(self.processed(tokens, sets, e, c));
        assert(self.waits_for(sets[m][p].key(), r));
        c
    }

    /// The item before the last step of a forest is in the sets.
    pub(crate) proof fn lemma_step_ready(
        &self,
        tokens: Seq<Seq<char>>,
        sets: Seq<Seq<Item>>,
        e: int,
        k: int,
        forest: Seq<TreeView>,
    ) -> (p: int)
        requires
            self.wf(),
            self.sound(tokens, sets),
            sets.len() == tokens.len() + 1,
            self.closed(tokens, sets, tokens.len() as int, sets[tokens.len() as int].len() as int),
            0 <= e < sets.len(),
            0 <= k < sets[e].len(),
            sets[e][k].dot > 0,
            self.forest_ok(tokens, sets[e][k].key(), e, forest),
            forall|i: int| 0 <= i < sets.len() ==> (#[trigger] sets[i]).len() <= usize::MAX,
        ensures
            self.step_ready(
                tokens,
                sets,
                sets[e][k].key(),
                e,
                forest.last(),
                e - forest.last().fringe().len(),
                p,
            ),
    {
        let key = sets[e][k].key();
        let m = e - forest.last().fringe().len();
        assert(self.item_ok(tokens, sets, e, k));
        self.lemma_rule_named(key.rule);
        self.lemma_forest_last(tokens, key, e, forest);
        self.lemma_item_rooted(tokens, sets, e, k);
        let seed = Key { rule: key.rule, dot: 0, start: key.start };
        self.lemma_forest_reached(tokens, sets, seed, key.start, forest.drop_last(), m);
        assert(holds(sets, m, key.back()));
        choose|p: int| 0 <= p < sets[m].len() && (#[trigger] sets[m][p]).key() == key.back()
    }

    /// A derivation that the sets record for a key is a derivation of the
    /// one item with that key.
    pub(crate) proof fn lemma_recorded_here(
        &self,
        tokens: Seq<Seq<char>>,
        sets: Seq<Seq<Item>>,
        e: int,
        k: int,
        d: Derivation,
    ) -> (j: int)
        requires
            self.sound(tokens, sets),
            0 <= e < sets.len(),
            0 <= k < sets[e].len(),
            records(sets, e, sets[e][k].key(), d),
        ensures
            0 <= j < sets[e][k].derivs.len(),
            sets[e][k].derivs[j] == d,
    {
        let key = sets[e][k].key();
        let q = choose|q: int|
            0 <= q < sets[e].len() && (#[trigger] sets[e][q]).key() == key && sets[e][q].derivs@.contains(
                d,
            );
        if q < k {
            assert(sets[e][q].key() != sets[e][k].key());
        }
        if k < q {
            assert(sets[e][k].key() != sets[e][q].key());
        }
        choose|j: int| 0 <= j < sets[e][k].derivs.len() && sets[e][k].derivs@[j] == d
    }

    /// Every forest of an item whose dot has moved ends as one of the
    /// item's derivations says.
    pub(crate) proof fn lemma_cover(
        &self,
        tokens: Seq<Seq<char>>,
        sets: Seq<Seq<Item>>,
        e: int,
        k: int,
        forest: Seq<TreeView>,
    ) -> (j: int)
        requires
            self.wf(),
            self.sound(tokens, sets),
            sets.len() == tokens.len() + 1,
            self.closed(tokens, sets, tokens.len() as int, sets[tokens.len() as int].len() as int),
            0 <= e < sets.len(),
            0 <= k < sets[e].len(),
            sets[e][k].dot > 0,
            self.forest_ok(tokens, sets[e][k].key(), e, forest),
            forall|i: int| 0 <= i < sets.len() ==> (#[trigger] sets[i]).len() <= usize::MAX,
        ensures
            0 <= j < sets[e][k].derivs.len(),
            self.via(sets, e, sets[e][k].key(), forest, sets[e][k].derivs[j]),
    {
        let key = sets[e][k].key();
        let last = forest.last();
        let m = e - last.fringe().len();
        let p = self.lemma_step_ready(tokens, sets, e, k, forest);
        match last {
            TreeView::Leaf(_, _) => {
                self.lemma_last_leaf(tokens, sets, key, e, forest, m, p);
                self.lemma_recorded_here(tokens, sets, e, k, Derivation::Scan { pred: p as usize })
            },
            TreeView::Node(_, _) => {
                if m == e {
                    self.lemma_last_empty(tokens, sets, key, e, forest, m, p);
                    self.lemma_recorded_here(
                        tokens,
                        sets,
                        e,
                        k,
                        Derivation::Nullable { pred: p as usize },
                    )
                } else {
                    let c = self.lemma_last_span(tokens, sets, key, e, forest, m, p);
                    self.lemma_recorded_here(
                        tokens,
                        sets,
                        e,
                        k,
                        Derivation::Complete {
                            origin: m as usize,
                            pred: p as usize,
                            cause: c as usize,
                        },
                    )
                }
            },
        }
    }
}

impl Grammar {
    /// Whether `forest` is a forest of an item with key `key` of set `e`
    /// whose trees are tidy under `path`, the labels of the nodes above
    /// that span the input from the key's start to `top`.
    pub open(crate) spec fn forest_wanted(
        &self,
        tokens: Seq<Seq<char>>,
        key: Key,
        e: int,
        top: int,
        path: Seq<Seq<char>>,
        forest: Seq<TreeView>,
    ) -> bool {
        self.forest_ok(tokens, key, e, forest) && forall|j: int|
            0 <= j < forest.len() ==> (#[trigger] forest[j]).tidy(path, (top - key.start) as nat)
    }

    /// Whether `tree` is a node of the rule of a completed item with key
    /// `key` of set `e`, over a forest of the item, and tidy under `path`,
    /// the labels of the nodes above that span the same input.
    pub open(crate) spec fn tree_wanted(
        &self,
        tokens: Seq<Seq<char>>,
        key: Key,
        e: int,
        path: Seq<Seq<char>>,
        tree: TreeView,
    ) -> bool {
        &&& self.made_by(tree, key.rule)
        &&& self.forest_ok(tokens, key, e, tree->Node_1)
        &&& tree.tidy(path, (e - key.start) as nat)
    }

    /// The path under which a tree that spans the input from `m` to `e` is
    /// tidy, within a forest from `start` that is tidy under `path` up to
    /// `top`: `path` where the spans are the same, the empty path else.
    pub open(crate) spec fn path_within(
        path: Seq<Seq<char>>,
        start: int,
        top: int,
        m: int,
        e: int,
    ) -> Seq<Seq<char>> {
        if m == start && e == top {
            path
        } else {
            Seq::empty()
        }
    }

    /// A tree over part of the input is tidy within a forest exactly if it
    /// is tidy by itself under the path of `path_within`.
    pub(crate) proof fn lemma_tidy_within(
        tree: TreeView,
        path: Seq<Seq<char>>,
        start: int,
        top: int,
        m: int,
        e: int,
    )
        requires
            start <= m < e <= top,
            tree is Node,
            tree.fringe().len() == e - m,
        ensures
            tree.tidy(path, (top - start) as nat) == tree.tidy(
                Self::path_within(path, start, top, m, e),
                (e - m) as nat,
            ),
    {
    }

    /// A wanted forest that ends as a scan says is a wanted forest of the
    /// item that scanned, followed by the leaf of the token.
    pub(crate) proof fn lemma_via_scan(
        &self,
        tokens: Seq<Seq<char>>,
        sets: Seq<Seq<Item>>,
        key: Key,
        e: int,
        top: int,
        path: Seq<Seq<char>>,
        forest: Seq<TreeView>,
        pred: usize,
    )
        requires
            self.wf(),
            self.key_ok(key),
            key.dot > 0,
            self.forest_wanted(tokens, key, e, top, path, forest),
            self.via(sets, e, key, forest, Derivation::Scan { pred }),
        ensures
            self.forest_wanted(tokens, key.back(), e - 1, top, path, forest.drop_last()),
            forest.last() == TreeView::Leaf(
                self.sym_name(self.next_symbol(key.back())),
                tokens[e - 1],
            ),
            forest == forest.drop_last().push(forest.last()),
    {
        self.lemma_forest_last(tokens, key, e, forest);
        self.lemma_rule_named(key.rule);
        let last = forest.last();
        let rest = forest.drop_last();
        assert(last.fringe().len() == 1);
        assert(tokens.subrange(e - 1, e)[0] == last->Leaf_1);
        self.lemma_leaf(last->Leaf_0, last->Leaf_1, self.next_symbol(key.back()));
        assert forall|j: int| 0 <= j < rest.len() implies (#[trigger] rest[j]).tidy(
            path,
            (top - key.start) as nat,
        ) by {
            assert(rest[j] == forest[j]);
        }
    }

    /// A wanted forest that ends as a step over a nullable symbol says is
    /// a wanted forest of the item that stepped, followed by a loose tree
    /// of the empty string.
    pub(crate) proof fn lemma_via_nullable(
        &self,
        tokens: Seq<Seq<char>>,
        sets: Seq<Seq<Item>>,
        key: Key,
        e: int,
        top: int,
        path: Seq<Seq<char>>,
        forest: Seq<TreeView>,
        pred: usize,
    )
        requires
            self.wf(),
            self.key_ok(key),
            key.dot > 0,
            self.forest_wanted(tokens, key, e, top, path, forest),
            self.via(sets, e, key, forest, Derivation::Nullable { pred }),
        ensures
            self.forest_wanted(tokens, key.back(), e, top, path, forest.drop_last()),
            self.empty_wanted(self.next_symbol(key.back()), Seq::empty(), forest.last()),
            forest == forest.drop_last().push(forest.last()),
    {
        self.lemma_forest_last(tokens, key, e, forest);
        let rest = forest.drop_last();
        assert(forest[forest.len() - 1] == forest.last());
        assert forall|j: int| 0 <= j < rest.len() implies (#[trigger] rest[j]).tidy(
            path,
            (top - key.start) as nat,
        ) by {
            assert(rest[j] == forest[j]);
        }
    }

    /// A wanted forest that ends as a completion says is a wanted forest
    /// of the item that waited, followed by a wanted tree of the completed
    /// item.
    pub(crate) proof fn lemma_via_complete(
        &self,
        tokens: Seq<Seq<char>>,
        sets: Seq<Seq<Item>>,
        key: Key,
        e: int,
        top: int,
        path: Seq<Seq<char>>,
        forest: Seq<TreeView>,
        origin: usize,
        pred: usize,
        cause: usize,
    )
        requires
            self.wf(),
            self.key_ok(key),
            key.dot > 0,
            e <= top,
            self.forest_wanted(tokens, key, e, top, path, forest),
            self.via(sets, e, key, forest, Derivation::Complete { origin, pred, cause }),
            self.waits_for(key.back(), sets[e][cause as int].key().rule),
        ensures
            self.forest_wanted(tokens, key.back(), origin as int, top, path, forest.drop_last()),
            self.tree_wanted(
                tokens,
                sets[e][cause as int].key(),
                e,
                Self::path_within(path, key.start, top, origin as int, e),
                forest.last(),
            ),
            forest == forest.drop_last().push(forest.last()),
    {
        self.lemma_forest_last(tokens, key, e, forest);
        self.lemma_rule_named(key.rule);
        let rest = forest.drop_last();
        let last = forest.last();
        let done = sets[e][cause as int].key();
        assert(forest[forest.len() - 1] == last);
        assert forall|j: int| 0 <= j < rest.len() implies (#[trigger] rest[j]).tidy(
            path,
            (top - key.start) as nat,
        ) by {
            assert(rest[j] == forest[j]);
        }
        let x = self.next_symbol(key.back());
        let r = self.lemma_node_rule(last->Node_0, last->Node_1, x);
        self.lemma_same_label(r, done.rule);
        Self::lemma_tidy_within(last, path, key.start, top, origin as int, e);
    }

    /// A wanted forest of an item that waits, followed by a wanted tree
    /// of a completed item that it waits for, is a wanted forest of the
    /// item with the dot one step further.
    pub(crate) proof fn lemma_made_complete(
        &self,
        tokens: Seq<Seq<char>>,
        key: Key,
        done: Key,
        e: int,
        top: int,
        path: Seq<Seq<char>>,
        forest: Seq<TreeView>,
        tree: TreeView,
    )
        requires
            self.wf(),
            self.key_ok(key),
            !self.is_complete(key),
            self.key_ok(done),
            self.is_complete(done),
            self.waits_for(key, done.rule),
            key.start <= done.start < e <= top,
            self.forest_wanted(tokens, key, done.start, top, path, forest),
            self.tree_wanted(
                tokens,
                done,
                e,
                Self::path_within(path, key.start, top, done.start, e),
                tree,
            ),
        ensures
            self.forest_wanted(tokens, key.advanced(), e, top, path, forest.push(tree)),
    {
        let kids = tree->Node_1;
        self.lemma_forest_node(tokens, done, e, kids);
        self.lemma_forest_step(tokens, key, done.start, e, forest, tree);
        Self::lemma_tidy_within(tree, path, key.start, top, done.start, e);
        let more = forest.push(tree);
        assert forall|j: int| 0 <= j < more.len() implies (#[trigger] more[j]).tidy(
            path,
            (top - key.start) as nat,
        ) by {
            if j < forest.len() {
                assert(more[j] == forest[j]);
            }
        }
    }

    /// A wanted forest of an item whose next symbol is nullable, followed
    /// by a loose tree of the empty string for that symbol, is a wanted
    /// forest of the item with the dot one step further.
    pub(crate) proof fn lemma_made_nullable(
        &self,
        tokens: Seq<Seq<char>>,
        key: Key,
        e: int,
        top: int,
        path: Seq<Seq<char>>,
        forest: Seq<TreeView>,
        tree: TreeView,
    )
        requires
            self.wf(),
            self.key_ok(key),
            !self.is_complete(key),
            self.forest_wanted(tokens, key, e, top, path, forest),
            self.empty_wanted(self.next_symbol(key), Seq::empty(), tree),
        ensures
            self.forest_wanted(tokens, key.advanced(), e, top, path, forest.push(tree)),
    {
        assert(tree.fringe() =~= tokens.subrange(e, e));
        self.lemma_forest_step(tokens, key, e, e, forest, tree);
        let more = forest.push(tree);
        assert forall|j: int| 0 <= j < more.len() implies (#[trigger] more[j]).tidy(
            path,
            (top - key.start) as nat,
        ) by {
            if j < forest.len() {
                assert(more[j] == forest[j]);
            }
        }
    }

    /// A wanted forest of an item whose next symbol matches the token at
    /// the forest's end, followed by the leaf of that token, is a wanted
    /// forest of the item with the dot one step further.
    pub(crate) proof fn lemma_made_scan(
        &self,
        tokens: Seq<Seq<char>>,
        key: Key,
        e: int,
        top: int,
        path: Seq<Seq<char>>,
        forest: Seq<TreeView>,
    )
        requires
            self.wf(),
            self.key_ok(key),
            !self.is_complete(key),
            1 <= e <= tokens.len(),
            self.forest_wanted(tokens, key, e - 1, top, path, forest),
            self.symbols[self.next_symbol(key)].accepts(tokens[e - 1]),
        ensures
            self.forest_wanted(
                tokens,
                key.advanced(),
                e,
                top,
                path,
                forest.push(TreeView::Leaf(self.sym_name(self.next_symbol(key)), tokens[e - 1])),
            ),
    {
        self.lemma_leaf_step(tokens, key, e, forest);
        let more = forest.push(TreeView::Leaf(self.sym_name(self.next_symbol(key)), tokens[e - 1]));
        assert forall|j: int| 0 <= j < more.len() implies (#[trigger] more[j]).tidy(
            path,
            (top - key.start) as nat,
        ) by {
            if j < forest.len() {
                assert(more[j] == forest[j]);
            }
        }
    }
}

/// What is listed in one of two lists is listed in the two together, and
/// nothing else is.
pub proof fn lemma_listed_both(first: Seq<Vec<Tree>>, second: Seq<Vec<Tree>>, forest: Seq<TreeView>)
    ensures
        listed_forest(first + second, forest) == (listed_forest(first, forest) || listed_forest(
            second,
            forest,
        )),
{
    let both = first + second;
    if listed_forest(first, forest) {
        let i = choose|i: int| 0 <= i < first.len() && views((#[trigger] first[i])@) == forest;
        assert(views(both[i]@) == forest);
    }
    if listed_forest(second, forest) {
        let i = choose|i: int| 0 <= i < second.len() && views((#[trigger] second[i])@) == forest;
        assert(views(both[first.len() + i]@) == forest);
    }
    if listed_forest(both, forest) {
        let i = choose|i: int| 0 <= i < both.len() && views((#[trigger] both[i])@) == forest;
        if i < first.len() {
            assert(views(first[i]@) == forest);
        } else {
            assert(views(second[i - first.len()]@) == forest);
        }
    }
}

/// Lists of trees that were found, kept to be found again: for every
/// completed item the tidy trees under the empty path, and for every
/// symbol the loose derivation trees of the empty string.
pub(crate) struct Memo {
    pub trees: Vec<Vec<Option<Vec<Tree>>>>,
    pub empty: Vec<Option<Vec<Tree>>>,
}

/// Lists with the same views list the same trees.
pub proof fn lemma_same_views(first: Seq<Tree>, second: Seq<Tree>)
    requires
        views(first) == views(second),
    ensures
        first.len() == second.len(),
        forall|i: int| 0 <= i < first.len() ==> (#[trigger] first[i])@ == second[i]@,
        forall|tree: TreeView| listed(first, tree) == listed(second, tree),
{
    assert(views(first).len() == first.len() && views(second).len() == second.len());
    assert forall|i: int| 0 <= i < first.len() implies (#[trigger] first[i])@ == second[i]@ by {
        assert(views(first)[i] == first[i]@);
        assert(views(second)[i] == second[i]@);
    }
    assert forall|tree: TreeView| listed(first, tree) == listed(second, tree) by {
        if listed(first, tree) {
            let i = choose|i: int| 0 <= i < first.len() && (#[trigger] first[i])@ == tree;
            assert(second[i]@ == tree);
        }
        if listed(second, tree) {
            let i = choose|i: int| 0 <= i < second.len() && (#[trigger] second[i])@ == tree;
            assert(first[i]@ == tree);
        }
    }
}

impl<'a> ParseState<'a> {
    /// The key of the item at position `k` of set `e`.
    pub open(crate) spec fn key(&self, e: int, k: int) -> Key {
        self.sets()[e][k].key()
    }

    /// Whether a forest of the item at position `k` of set `e` ends as one
    /// of the item's derivations before the one at position `upto` says.
    pub open(crate) spec fn via_before(&self, e: int, k: int, forest: Seq<TreeView>, upto: int) -> bool {
        exists|j: int|
            0 <= j < upto && j < self.sets()[e][k].derivs.len() && self.grammar.via(
                self.sets(),
                e,
                self.key(e, k),
                forest,
                #[trigger] self.sets()[e][k].derivs[j],
            )
    }

    /// Whether `list` holds exactly the tidy trees of the completed item at
    /// position `c` of set `e` under the empty path.
    pub open(crate) spec fn exact_trees(&self, e: int, c: int, list: Seq<Tree>) -> bool {
        &&& forall|i: int|
            0 <= i < list.len() ==> self.grammar.tree_wanted(
                self.input(),
                self.key(e, c),
                e,
                Seq::empty(),
                (#[trigger] list[i])@,
            )
        &&& forall|tree: TreeView|
            #[trigger] self.grammar.tree_wanted(self.input(), self.key(e, c), e, Seq::empty(), tree)
                ==> listed(list, tree)
    }

    /// Whether `list` holds exactly the loose derivation trees of the
    /// empty string for symbol `x`.
    pub open(crate) spec fn exact_empty(&self, x: int, list: Seq<Tree>) -> bool {
        &&& forall|i: int|
            0 <= i < list.len() ==> self.grammar.empty_wanted(x, Seq::empty(), (#[trigger] list[i])@)
        &&& forall|tree: TreeView|
            #[trigger] self.grammar.empty_wanted(x, Seq::empty(), tree) ==> listed(list, tree)
    }

    /// Whether `memo` has a place for every item and for every symbol, and
    /// every list that it holds is the list of the tidy trees of its item
    /// under the empty path, or of the loose trees of its symbol.
    pub(crate) open spec fn memo_ok(&self, memo: Memo) -> bool {
        &&& memo.trees.len() == self.sets().len()
        &&& forall|e: int|
            0 <= e < memo.trees.len() ==> (#[trigger] memo.trees[e]).len() == self.sets()[e].len()
        &&& forall|e: int, c: int|
            0 <= e < memo.trees.len() && 0 <= c < memo.trees[e].len() ==> ((
            #[trigger] memo.trees[e][c]) matches Some(list) ==> self.exact_trees(e, c, list@))
        &&& memo.empty.len() == self.grammar.symbols.len()
        &&& forall|x: int|
            0 <= x < memo.empty.len() ==> ((#[trigger] memo.empty[x]) matches Some(list)
                ==> self.exact_empty(x, list@))
    }

    /// A table without lists.
    pub(crate) fn new_memo(&self) -> (memo: Memo)
        ensures
            self.memo_ok(memo),
    {
        proof {
            use_type_invariant(self);
        }
        let ghost sets = self.sets();
        let mut trees: Vec<Vec<Option<Vec<Tree>>>> = Vec::new();
        let mut e: usize = 0;
        while e < self.sets.len()
            invariant
                e <= self.sets.len(),
                trees.len() == e,
                sets == self.sets(),
                forall|p: int| 0 <= p < e ==> (#[trigger] trees[p]).len() == sets[p].len(),
                forall|p: int, q: int|
                    0 <= p < e && 0 <= q < trees[p].len() ==> (#[trigger] trees[p][q]) is None,
            decreases self.sets.len() - e,
        {
            let mut row: Vec<Option<Vec<Tree>>> = Vec::new();
            let mut c: usize = 0;
            while c < self.sets[e].len()
                invariant
                    c <= self.sets[e as int].len(),
                    e < self.sets.len(),
                    row.len() == c,
                    forall|q: int| 0 <= q < c ==> (#[trigger] row[q]) is None,
                decreases self.sets[e as int].len() - c,
            {
                row.push(None);
                c += 1;
            }
            proof {
                assert(sets[e as int] == self.sets[e as int]@);
            }
            trees.push(row);
            e += 1;
        }
        let mut empty: Vec<Option<Vec<Tree>>> = Vec::new();
        let mut x: usize = 0;
        while x < self.grammar.symbols.len()
            invariant
                x <= self.grammar.symbols.len(),
                empty.len() == x,
                forall|q: int| 0 <= q < x ==> (#[trigger] empty[q]) is None,
            decreases self.grammar.symbols.len() - x,
        {
            empty.push(None);
            x += 1;
        }
        Memo { trees, empty }
    }

    /// Every loose derivation tree of the empty string for symbol `x`,
    /// from the table where it holds them.
    pub(crate) fn empty_trees(&self, x: usize, memo: &mut Memo) -> (out: Vec<Tree>)
        requires
            self.memo_ok(*old(memo)),
            x < self.grammar.symbols.len(),
        ensures
            self.memo_ok(*final(memo)),
            self.exact_empty(x as int, out@),
    {
        proof {
            use_type_invariant(self);
        }
        let g = self.grammar;
        match &memo.empty[x] {
            Some(list) => {
                let known = duplicate_all(list);
                proof {
                    assert(self.exact_empty(x as int, list@));
                    lemma_same_views(list@, known@);
                    assert forall|i: int| 0 <= i < known.len() implies g.empty_wanted(
                        x as int,
                        Seq::empty(),
                        (#[trigger] known[i])@,
                    ) by {
                        assert(known[i]@ == list[i]@);
                    }
                }
                return known;
            },
            None => {},
        }
        let none: Vec<usize> = Vec::new();
        proof {
            use_type_invariant(g);
            assert(none@ =~= Seq::<usize>::empty());
            g.lemma_labels(none@, 0);
        }
        let out = g.all_empty(x, &none);
        let copy = duplicate_all(&out);
        proof {
            lemma_same_views(out@, copy@);
            assert forall|i: int| 0 <= i < copy.len() implies g.empty_wanted(
                x as int,
                Seq::empty(),
                (#[trigger] copy[i])@,
            ) by {
                assert(copy[i]@ == out[i]@);
            }
            assert(self.exact_empty(x as int, copy@));
        }
        let ghost before = *memo;
        memo.empty[x] = Some(copy);
        proof {
            assert forall|q: int| 0 <= q < memo.empty.len() implies ((#[trigger] memo.empty[q]) matches Some(
                list,
            ) ==> self.exact_empty(q, list@)) by {
                if q != x {
                    assert(memo.empty[q] == before.empty[q]);
                }
            }
        }
        out
    }

    /// What the enumeration of the forests of the item at position `k` of
    /// set `e` asks for: the item is in the sets, it began before `top`
    /// and ends no later, and the stack holds rules.
    pub open(crate) spec fn forests_ready(&self, e: int, k: int, top: int, stack: Seq<usize>) -> bool {
        &&& self.wf()
        &&& 0 <= e < self.sets().len()
        &&& 0 <= k < self.sets()[e].len()
        &&& e <= top < self.sets().len()
        &&& self.sets()[e][k].start < top
        &&& self.grammar.stack_ok(stack)
    }

    /// Every tidy tree of the completed item at position `c` of set `e`,
    /// which spans input: every node of the item's rule over a tidy forest
    /// of the item, unless the rule is on the stack of the rules that are
    /// being applied to the same input. Under the empty stack the trees
    /// are taken from the table if it holds them, and put there if not.
    pub(crate) fn all_trees(
        &self,
        e: usize,
        c: usize,
        stack: &Vec<usize>,
        memo: &mut Memo,
    ) -> (out: Vec<Tree>)
        requires
            self.memo_ok(*old(memo)),
            e < self.sets.len(),
            c < self.sets[e as int].len(),
            self.grammar.is_complete(self.sets[e as int][c as int].key()),
            self.sets[e as int][c as int].start < e,
            self.grammar.stack_ok(stack@),
        ensures
            self.memo_ok(*final(memo)),
            forall|i: int|
                0 <= i < out.len() ==> self.grammar.tree_wanted(
                    self.input(),
                    self.key(e as int, c as int),
                    e as int,
                    self.grammar.labels_of(stack@),
                    (#[trigger] out[i])@,
                ),
            forall|tree: TreeView|
                #[trigger] self.grammar.tree_wanted(
                    self.input(),
                    self.key(e as int, c as int),
                    e as int,
                    self.grammar.labels_of(stack@),
                    tree,
                ) ==> listed(out@, tree),
        decreases
                e - self.sets[e as int][c as int].start,
                self.grammar.rules.len() - stack.len(),
                0nat,
                0nat,
                0nat,
    {
        proof {
            use_type_invariant(self);
        }
        let g = self.grammar;
        let ghost toks = self.input();
        let ghost sets = self.sets();
        let ghost key = self.key(e as int, c as int);
        let ghost path = g.labels_of(stack@);
        proof {
            assert(sets[e as int] == self.sets[e as int]@);
            assert(g.item_ok(toks, sets, e as int, c as int));
            g.lemma_rule_named(key.rule);
        }
        let rule = self.sets[e][c].rule;
        let mut out: Vec<Tree> = Vec::new();
        proof {
            g.lemma_labels(stack@, rule);
        }
        let fresh = stack.len() == 0;
        if fresh {
            proof {
                assert(stack@ =~= Seq::<usize>::empty());
            }
            match &memo.trees[e][c] {
                Some(list) => {
                    let known = duplicate_all(list);
                    proof {
                        assert(self.exact_trees(e as int, c as int, list@));
                        lemma_same_views(list@, known@);
                        assert forall|i: int| 0 <= i < known.len() implies g.tree_wanted(
                            toks,
                            key,
                            e as int,
                            path,
                            (#[trigger] known[i])@,
                        ) by {
                            assert(known[i]@ == list[i]@);
                        }
                    }
                    return known;
                },
                None => {},
            }
        }
        if in_stack(stack, rule) {
            proof {
                assert forall|tree: TreeView|
                    #[trigger] g.tree_wanted(toks, key, e as int, path, tree) implies listed(
                    out@,
                    tree,
                ) by {
                    assert(tree.fringe() == fringe_of(tree->Node_1));
                }
            }
            return out;
        }
        let inner = with_top(stack, rule);
        let forests = self.all_forests(e, c, e, &inner, memo);
        let ghost label = g.rules[rule as int].label@;
        let ghost span = (e - key.start) as nat;
        let mut f: usize = 0;
        while f < forests.len()
            invariant
                f <= forests.len(),
                g.wf(),
                g.key_ok(key),
                g.is_complete(key),
                key.rule == rule,
                key.start < e,
                span == e - key.start,
                label == g.rules[rule as int].label@,
                !path.contains(label),
                forall|i: int|
                    0 <= i < forests.len() ==> g.forest_wanted(
                        toks,
                        key,
                        e as int,
                        e as int,
                        path.push(label),
                        views((#[trigger] forests[i])@),
                    ),
                forall|i: int|
                    0 <= i < out.len() ==> g.tree_wanted(toks, key, e as int, path, (#[trigger] out[i])@),
                forall|j: int|
                    0 <= j < f ==> listed(
                        out@,
                        TreeView::Node(label, views((#[trigger] forests[j])@)),
                    ),
            decreases forests.len() - f,
        {
            let kids = duplicate_all(&forests[f]);
            let text = g.rules[rule].label.clone();
            let tree = Tree::Node(text, kids);
            proof {
                lemma_node_view(text, kids);
                let wanted = views(forests[f as int]@);
                assert(g.forest_wanted(toks, key, e as int, e as int, path.push(label), wanted));
                assert(tree@.fringe() == fringe_of(wanted));
                assert(fringe_of(wanted).len() == span);
            }
            let ghost old_out = out@;
            out.push(tree);
            proof {
                assert forall|j: int| 0 <= j < f + 1 implies listed(
                    out@,
                    TreeView::Node(label, views((#[trigger] forests[j])@)),
                ) by {
                    let t = TreeView::Node(label, views(forests[j]@));
                    if j < f {
                        let i = choose|i: int| 0 <= i < old_out.len() && (#[trigger] old_out[i])@ == t;
                        assert(out@[i]@ == t);
                    } else {
                        assert(out@[out.len() - 1]@ == t);
                    }
                }
            }
            f += 1;
        }
        proof {
            assert forall|tree: TreeView|
                #[trigger] g.tree_wanted(toks, key, e as int, path, tree) implies listed(
                out@,
                tree,
            ) by {
                let kids = tree->Node_1;
                assert(tree.fringe() == fringe_of(kids));
                assert(g.forest_wanted(toks, key, e as int, e as int, path.push(label), kids));
                assert(listed_forest(forests@, kids));
                let j = choose|j: int| 0 <= j < forests.len() && views((#[trigger] forests[j])@) == kids;
                assert(listed(out@, TreeView::Node(label, views(forests[j]@))));
            }
        }
        if fresh {
            let copy = duplicate_all(&out);
            let ghost before = *memo;
            proof {
                lemma_same_views(out@, copy@);
                assert forall|i: int| 0 <= i < copy.len() implies g.tree_wanted(
                    toks,
                    key,
                    e as int,
                    Seq::empty(),
                    (#[trigger] copy[i])@,
                ) by {
                    assert(copy[i]@ == out[i]@);
                }
                assert(self.exact_trees(e as int, c as int, copy@));
            }
            memo.trees[e][c] = Some(copy);
            proof {
                assert forall|p: int, q: int|
                    0 <= p < memo.trees.len() && 0 <= q < memo.trees[p].len() implies ((
                #[trigger] memo.trees[p][q]) matches Some(list) ==> self.exact_trees(p, q, list@)) by {
                    if !(p == e && q == c) {
                        assert(memo.trees[p][q] == before.trees[p][q]);
                    }
                }
            }
        }
        out
    }

    /// Every tidy forest of the item at position `k` of set `e`: for every
    /// derivation of the item the forests that end as it says.
    pub(crate) fn all_forests(
        &self,
        e: usize,
        k: usize,
        top: usize,
        stack: &Vec<usize>,
        memo: &mut Memo,
    ) -> (out: Vec<Vec<Tree>>)
        requires
            self.memo_ok(*old(memo)),
            self.forests_ready(e as int, k as int, top as int, stack@),
        ensures
            self.memo_ok(*final(memo)),
            forall|i: int|
                0 <= i < out.len() ==> self.grammar.forest_wanted(
                    self.input(),
                    self.key(e as int, k as int),
                    e as int,
                    top as int,
                    self.grammar.labels_of(stack@),
                    views((#[trigger] out[i])@),
                ),
            forall|forest: Seq<TreeView>|
                #[trigger] self.grammar.forest_wanted(
                    self.input(),
                    self.key(e as int, k as int),
                    e as int,
                    top as int,
                    self.grammar.labels_of(stack@),
                    forest,
                ) ==> listed_forest(out@, forest),
        decreases
                top - self.sets[e as int][k as int].start,
                self.grammar.rules.len() - stack.len(),
                1nat,
                self.sets[e as int][k as int].dot,
                2nat,
    {
        proof {
            use_type_invariant(self);
        }
        let g = self.grammar;
        let ghost toks = self.input();
        let ghost sets = self.sets();
        let ghost key = self.key(e as int, k as int);
        let ghost path = g.labels_of(stack@);
        proof {
            assert(sets[e as int] == self.sets[e as int]@);
            assert(g.item_ok(toks, sets, e as int, k as int));
        }
        let mut out: Vec<Vec<Tree>> = Vec::new();
        if self.sets[e][k].dot == 0 {
            let none: Vec<Tree> = Vec::new();
            proof {
                assert(views(none@) =~= Seq::<TreeView>::empty());
                assert(fringe_of(views(none@)) =~= toks.subrange(e as int, e as int));
            }
            out.push(none);
            proof {
                assert forall|forest: Seq<TreeView>|
                    #[trigger] g.forest_wanted(
                        toks,
                        key,
                        e as int,
                        top as int,
                        path,
                        forest,
                    ) implies listed_forest(out@, forest) by {
                    assert(forest =~= views(out@[0]@));
                }
            }
            return out;
        }
        let count = self.sets[e][k].derivs.len();
        let mut i: usize = 0;
        while i < count
            invariant
                i <= count,
                count == self.sets[e as int][k as int].derivs.len(),
                self.memo_ok(*memo),
                self.forests_ready(e as int, k as int, top as int, stack@),
                g == self.grammar,
                toks == self.input(),
                sets == self.sets(),
                key == self.key(e as int, k as int),
                path == g.labels_of(stack@),
                forall|q: int|
                    0 <= q < out.len() ==> g.forest_wanted(
                        toks,
                        key,
                        e as int,
                        top as int,
                        path,
                        views((#[trigger] out[q])@),
                    ),
                forall|forest: Seq<TreeView>|
                    #[trigger] g.forest_wanted(toks, key, e as int, top as int, path, forest)
                        && self.via_before(e as int, k as int, forest, i as int) ==> listed_forest(
                        out@,
                        forest,
                    ),
            decreases count - i,
        {
            let mut found = self.forests_via(e, k, top, stack, i, memo);
            let ghost before = out@;
            let ghost added = found@;
            out.append(&mut found);
            proof {
                assert forall|q: int| 0 <= q < out.len() implies g.forest_wanted(
                    toks,
                    key,
                    e as int,
                    top as int,
                    path,
                    views((#[trigger] out[q])@),
                ) by {
                    if q < before.len() {
                        assert(out[q] == before[q]);
                    } else {
                        assert(out[q] == added[q - before.len()]);
                    }
                }
                assert forall|forest: Seq<TreeView>|
                    #[trigger] g.forest_wanted(toks, key, e as int, top as int, path, forest)
                        && self.via_before(e as int, k as int, forest, i + 1) implies listed_forest(
                    out@,
                    forest,
                ) by {
                    lemma_listed_both(before, added, forest);
                    let j = choose|j: int|
                        0 <= j < i + 1 && j < sets[e as int][k as int].derivs.len() && g.via(
                            sets,
                            e as int,
                            key,
                            forest,
                            #[trigger] sets[e as int][k as int].derivs[j],
                        );
                    if j < i {
                        assert(self.via_before(e as int, k as int, forest, i as int));
                    }
                }
            }
            i += 1;
        }
        proof {
            assert forall|forest: Seq<TreeView>|
                #[trigger] g.forest_wanted(
                    toks,
                    key,
                    e as int,
                    top as int,
                    path,
                    forest,
                ) implies listed_forest(out@, forest) by {
                assert forall|q: int| 0 <= q < sets.len() implies (#[trigger] sets[q]).len()
                    <= usize::MAX by {
                    assert(sets[q].len() == self.sets[q].len());
                }
                let j = g.lemma_cover(toks, sets, e as int, k as int, forest);
                assert(self.via_before(e as int, k as int, forest, count as int));
            }
        }
        out
    }

    /// The tidy forests of the item at position `k` of set `e` that end as
    /// the item's derivation at position `i` says.
    pub(crate) fn forests_via(
        &self,
        e: usize,
        k: usize,
        top: usize,
        stack: &Vec<usize>,
        i: usize,
        memo: &mut Memo,
    ) -> (out: Vec<Vec<Tree>>)
        requires
            self.memo_ok(*old(memo)),
            self.forests_ready(e as int, k as int, top as int, stack@),
            i < self.sets[e as int][k as int].derivs.len(),
        ensures
            self.memo_ok(*final(memo)),
            forall|q: int|
                0 <= q < out.len() ==> self.grammar.forest_wanted(
                    self.input(),
                    self.key(e as int, k as int),
                    e as int,
                    top as int,
                    self.grammar.labels_of(stack@),
                    views((#[trigger] out[q])@),
                ),
            forall|forest: Seq<TreeView>|
                #[trigger] self.grammar.forest_wanted(
                    self.input(),
                    self.key(e as int, k as int),
                    e as int,
                    top as int,
                    self.grammar.labels_of(stack@),
                    forest,
                ) && self.grammar.via(
                    self.sets(),
                    e as int,
                    self.key(e as int, k as int),
                    forest,
                    self.sets[e as int][k as int].derivs[i as int],
                ) ==> listed_forest(out@, forest),
        decreases
                top - self.sets[e as int][k as int].start,
                self.grammar.rules.len() - stack.len(),
                1nat,
                self.sets[e as int][k as int].dot,
                1nat,
    {
        proof {
            use_type_invariant(self);
            let sets = self.sets();
            assert(sets[e as int] == self.sets[e as int]@);
            assert(self.grammar.item_ok(self.input(), sets, e as int, k as int));
            assert(self.grammar.deriv_ok(
                self.input(),
                sets,
                e as int,
                self.key(e as int, k as int),
                k as int,
                self.sets[e as int][k as int].derivs[i as int],
                i == 0,
            ));
        }
        match self.sets[e][k].derivs[i] {
            Derivation::Scan { pred } => self.forests_scan(e, k, top, stack, pred, memo),
            Derivation::Nullable { pred } => self.forests_nullable(e, k, top, stack, pred, memo),
            Derivation::Complete { origin, pred, cause } => self.forests_complete(
                e,
                k,
                top,
                stack,
                origin,
                pred,
                cause,
                memo,
            ),
        }
    }

    /// The tidy forests of an item that end with the leaf of the token that
    /// the item at position `pred` of the set before scanned.
    pub(crate) fn forests_scan(
        &self,
        e: usize,
        k: usize,
        top: usize,
        stack: &Vec<usize>,
        pred: usize,
        memo: &mut Memo,
    ) -> (out: Vec<Vec<Tree>>)
        requires
            self.memo_ok(*old(memo)),
            self.forests_ready(e as int, k as int, top as int, stack@),
            self.sets[e as int][k as int].dot > 0,
            self.grammar.deriv_ok(
                self.input(),
                self.sets(),
                e as int,
                self.key(e as int, k as int),
                k as int,
                Derivation::Scan { pred },
                false,
            ),
        ensures
            self.memo_ok(*final(memo)),
            forall|q: int|
                0 <= q < out.len() ==> self.grammar.forest_wanted(
                    self.input(),
                    self.key(e as int, k as int),
                    e as int,
                    top as int,
                    self.grammar.labels_of(stack@),
                    views((#[trigger] out[q])@),
                ),
            forall|forest: Seq<TreeView>|
                #[trigger] self.grammar.forest_wanted(
                    self.input(),
                    self.key(e as int, k as int),
                    e as int,
                    top as int,
                    self.grammar.labels_of(stack@),
                    forest,
                ) && self.grammar.via(
                    self.sets(),
                    e as int,
                    self.key(e as int, k as int),
                    forest,
                    Derivation::Scan { pred },
                ) ==> listed_forest(out@, forest),
        decreases
                top - self.sets[e as int][k as int].start,
                self.grammar.rules.len() - stack.len(),
                1nat,
                self.sets[e as int][k as int].dot,
                0nat,
    {
        proof {
            use_type_invariant(self);
        }
        let g = self.grammar;
        let ghost toks = self.input();
        let ghost sets = self.sets();
        let ghost key = self.key(e as int, k as int);
        let ghost path = g.labels_of(stack@);
        let ghost d = Derivation::Scan { pred };
        proof {
            assert(sets[e as int] == self.sets[e as int]@);
            assert(g.item_ok(toks, sets, e as int, k as int));
            assert(key.back().advanced() == key);
            g.lemma_rule_named(key.rule);
            g.lemma_labels(Seq::empty(), 0);
        }
        proof {
            assert(sets[e - 1] == self.sets[e - 1]@);
            assert(g.item_ok(toks, sets, e - 1, pred as int));
        }
        let prefixes = self.all_forests(e - 1, pred, top, stack, memo);
        let p = &self.sets[e - 1][pred];
        let x = g.rules[p.rule].body[p.dot];
        let mut leaves: Vec<Tree> = Vec::new();
        leaves.push(Tree::Leaf(g.symbols[x].name_text(), self.tokens[e - 1].clone()));
        let ghost leaf = TreeView::Leaf(g.sym_name(x as int), toks[e - 1]);
        let out = cross(&prefixes, &leaves);
        proof {
            assert(leaves[0]@ == leaf);
            assert forall|q: int| 0 <= q < out.len() implies g.forest_wanted(
                toks,
                key,
                e as int,
                top as int,
                path,
                views((#[trigger] out[q])@),
            ) by {
                let (a, b) = choose|a: int, b: int|
                    0 <= a < prefixes.len() && 0 <= b < leaves.len() && views(out[q]@)
                        == #[trigger] views(prefixes[a]@).push(leaves[b]@);
                g.lemma_made_scan(toks, key.back(), e as int, top as int, path, views(prefixes[a]@));
            }
            assert forall|forest: Seq<TreeView>|
                #[trigger] g.forest_wanted(toks, key, e as int, top as int, path, forest) && g.via(
                    sets,
                    e as int,
                    key,
                    forest,
                    d,
                ) implies listed_forest(out@, forest) by {
                g.lemma_via_scan(toks, sets, key, e as int, top as int, path, forest, pred);
                let rest = forest.drop_last();
                assert(g.forest_wanted(toks, self.key(e - 1, pred as int), e - 1, top as int, path, rest));
                assert(listed_forest(prefixes@, rest));
                let a = choose|a: int|
                    0 <= a < prefixes.len() && views((#[trigger] prefixes[a])@) == rest;
                assert(listed_forest(out@, views(prefixes[a]@).push(leaves[0]@)));
            }
        }
        out
    }

    /// The tidy forests of an item that end with a tree of the empty string
    /// for the nullable symbol that the item at position `pred` of the same
    /// set stepped over.
    pub(crate) fn forests_nullable(
        &self,
        e: usize,
        k: usize,
        top: usize,
        stack: &Vec<usize>,
        pred: usize,
        memo: &mut Memo,
    ) -> (out: Vec<Vec<Tree>>)
        requires
            self.memo_ok(*old(memo)),
            self.forests_ready(e as int, k as int, top as int, stack@),
            self.sets[e as int][k as int].dot > 0,
            self.grammar.deriv_ok(
                self.input(),
                self.sets(),
                e as int,
                self.key(e as int, k as int),
                k as int,
                Derivation::Nullable { pred },
                false,
            ),
        ensures
            self.memo_ok(*final(memo)),
            forall|q: int|
                0 <= q < out.len() ==> self.grammar.forest_wanted(
                    self.input(),
                    self.key(e as int, k as int),
                    e as int,
                    top as int,
                    self.grammar.labels_of(stack@),
                    views((#[trigger] out[q])@),
                ),
            forall|forest: Seq<TreeView>|
                #[trigger] self.grammar.forest_wanted(
                    self.input(),
                    self.key(e as int, k as int),
                    e as int,
                    top as int,
                    self.grammar.labels_of(stack@),
                    forest,
                ) && self.grammar.via(
                    self.sets(),
                    e as int,
                    self.key(e as int, k as int),
                    forest,
                    Derivation::Nullable { pred },
                ) ==> listed_forest(out@, forest),
        decreases
                top - self.sets[e as int][k as int].start,
                self.grammar.rules.len() - stack.len(),
                1nat,
                self.sets[e as int][k as int].dot,
                0nat,
    {
        proof {
            use_type_invariant(self);
        }
        let g = self.grammar;
        let ghost toks = self.input();
        let ghost sets = self.sets();
        let ghost key = self.key(e as int, k as int);
        let ghost path = g.labels_of(stack@);
        let ghost d = Derivation::Nullable { pred };
        proof {
            assert(sets[e as int] == self.sets[e as int]@);
            assert(g.item_ok(toks, sets, e as int, k as int));
            assert(key.back().advanced() == key);
            g.lemma_rule_named(key.rule);
            g.lemma_labels(Seq::empty(), 0);
        }
        proof {
            assert(g.item_ok(toks, sets, e as int, pred as int));
        }
        let prefixes = self.all_forests(e, pred, top, stack, memo);
        let p = &self.sets[e][pred];
        let x = g.rules[p.rule].body[p.dot];
        let trees = self.empty_trees(x, memo);
        let out = cross(&prefixes, &trees);
        proof {
            assert forall|q: int| 0 <= q < out.len() implies g.forest_wanted(
                toks,
                key,
                e as int,
                top as int,
                path,
                views((#[trigger] out[q])@),
            ) by {
                let (a, b) = choose|a: int, b: int|
                    0 <= a < prefixes.len() && 0 <= b < trees.len() && views(out[q]@)
                        == #[trigger] views(prefixes[a]@).push(trees[b]@);
                g.lemma_made_nullable(
                    toks,
                    key.back(),
                    e as int,
                    top as int,
                    path,
                    views(prefixes[a]@),
                    trees[b]@,
                );
            }
            assert forall|forest: Seq<TreeView>|
                #[trigger] g.forest_wanted(toks, key, e as int, top as int, path, forest) && g.via(
                    sets,
                    e as int,
                    key,
                    forest,
                    d,
                ) implies listed_forest(out@, forest) by {
                g.lemma_via_nullable(toks, sets, key, e as int, top as int, path, forest, pred);
                let rest = forest.drop_last();
                assert(g.forest_wanted(toks, self.key(e as int, pred as int), e as int, top as int, path, rest));
                assert(listed_forest(prefixes@, rest));
                assert(listed(trees@, forest.last()));
                let a = choose|a: int|
                    0 <= a < prefixes.len() && views((#[trigger] prefixes[a])@) == rest;
                let b = choose|b: int| 0 <= b < trees.len() && (#[trigger] trees[b])@ == forest.last();
                assert(listed_forest(out@, views(prefixes[a]@).push(trees[b]@)));
            }
        }
        out
    }

    /// The tidy forests of an item that end with a tree of the completed
    /// item at position `cause` of the same set, which began at `origin`,
    /// where the item at position `pred` waited for it.
    pub(crate) fn forests_complete(
        &self,
        e: usize,
        k: usize,
        top: usize,
        stack: &Vec<usize>,
        origin: usize,
        pred: usize,
        cause: usize,
        memo: &mut Memo,
    ) -> (out: Vec<Vec<Tree>>)
        requires
            self.memo_ok(*old(memo)),
            self.forests_ready(e as int, k as int, top as int, stack@),
            self.sets[e as int][k as int].dot > 0,
            self.grammar.deriv_ok(
                self.input(),
                self.sets(),
                e as int,
                self.key(e as int, k as int),
                k as int,
                Derivation::Complete { origin, pred, cause },
                false,
            ),
        ensures
            self.memo_ok(*final(memo)),
            forall|q: int|
                0 <= q < out.len() ==> self.grammar.forest_wanted(
                    self.input(),
                    self.key(e as int, k as int),
                    e as int,
                    top as int,
                    self.grammar.labels_of(stack@),
                    views((#[trigger] out[q])@),
                ),
            forall|forest: Seq<TreeView>|
                #[trigger] self.grammar.forest_wanted(
                    self.input(),
                    self.key(e as int, k as int),
                    e as int,
                    top as int,
                    self.grammar.labels_of(stack@),
                    forest,
                ) && self.grammar.via(
                    self.sets(),
                    e as int,
                    self.key(e as int, k as int),
                    forest,
                    Derivation::Complete { origin, pred, cause },
                ) ==> listed_forest(out@, forest),
        decreases
                top - self.sets[e as int][k as int].start,
                self.grammar.rules.len() - stack.len(),
                1nat,
                self.sets[e as int][k as int].dot,
                0nat,
    {
        proof {
            use_type_invariant(self);
        }
        let g = self.grammar;
        let ghost toks = self.input();
        let ghost sets = self.sets();
        let ghost key = self.key(e as int, k as int);
        let ghost path = g.labels_of(stack@);
        let ghost d = Derivation::Complete { origin, pred, cause };
        proof {
            assert(sets[e as int] == self.sets[e as int]@);
            assert(g.item_ok(toks, sets, e as int, k as int));
            assert(key.back().advanced() == key);
            g.lemma_rule_named(key.rule);
            g.lemma_labels(Seq::empty(), 0);
        }
        proof {
            assert(sets[origin as int] == self.sets[origin as int]@);
            assert(g.item_ok(toks, sets, origin as int, pred as int));
            assert(g.item_ok(toks, sets, e as int, cause as int));
        }
        let prefixes = self.all_forests(origin, pred, top, stack, memo);
        let same = origin == self.sets[e][k].start && e == top;
        let none: Vec<usize> = Vec::new();
        assert(none@ =~= Seq::<usize>::empty());
        let trees = if same {
            self.all_trees(e, cause, stack, memo)
        } else {
            self.all_trees(e, cause, &none, memo)
        };
        let ghost done = self.key(e as int, cause as int);
        let ghost within = Grammar::path_within(path, key.start, top as int, origin as int, e as int);
        let out = cross(&prefixes, &trees);
        proof {
            assert forall|b: int| 0 <= b < trees.len() implies g.tree_wanted(
                toks,
                done,
                e as int,
                within,
                (#[trigger] trees[b])@,
            ) by {}
            assert forall|q: int| 0 <= q < out.len() implies g.forest_wanted(
                toks,
                key,
                e as int,
                top as int,
                path,
                views((#[trigger] out[q])@),
            ) by {
                let (a, b) = choose|a: int, b: int|
                    0 <= a < prefixes.len() && 0 <= b < trees.len() && views(out[q]@)
                        == #[trigger] views(prefixes[a]@).push(trees[b]@);
                assert(g.tree_wanted(toks, done, e as int, within, trees[b]@));
                g.lemma_made_complete(
                    toks,
                    key.back(),
                    done,
                    e as int,
                    top as int,
                    path,
                    views(prefixes[a]@),
                    trees[b]@,
                );
            }
            assert forall|forest: Seq<TreeView>|
                #[trigger] g.forest_wanted(toks, key, e as int, top as int, path, forest) && g.via(
                    sets,
                    e as int,
                    key,
                    forest,
                    d,
                ) implies listed_forest(out@, forest) by {
                g.lemma_via_complete(
                    toks,
                    sets,
                    key,
                    e as int,
                    top as int,
                    path,
                    forest,
                    origin,
                    pred,
                    cause,
                );
                let rest = forest.drop_last();
                assert(g.forest_wanted(
                    toks,
                    self.key(origin as int, pred as int),
                    origin as int,
                    top as int,
                    path,
                    rest,
                ));
                assert(listed_forest(prefixes@, rest));
                assert(g.tree_wanted(toks, done, e as int, within, forest.last()));
                assert(listed(trees@, forest.last()));
                let a = choose|a: int|
                    0 <= a < prefixes.len() && views((#[trigger] prefixes[a])@) == rest;
                let b = choose|b: int| 0 <= b < trees.len() && (#[trigger] trees[b])@ == forest.last();
                assert(listed_forest(out@, views(prefixes[a]@).push(trees[b]@)));
            }
        }
        out
    }
}

impl Grammar {
    /// Whether set `top` holds, at position `floor` or behind it, the
    /// completed item of rule `q` that began at `start`.
    pub open(crate) spec fn above(
        &self,
        sets: Seq<Seq<Item>>,
        top: int,
        start: int,
        q: int,
        floor: int,
    ) -> bool {
        exists|c: int|
            floor <= c < sets[top].len() && (#[trigger] sets[top][c]).key() == (Key {
                rule: q,
                dot: self.rules[q].body.len() as int,
                start: start,
            })
    }

    /// The first forest of an item is tidy under the rules of the
    /// completed items that span the same input and stand, in their set,
    /// no earlier than the item.
    pub(crate) proof fn lemma_first_tidy(
        &self,
        tokens: Seq<Seq<char>>,
        sets: Seq<Seq<Item>>,
        e: int,
        k: int,
        top: int,
        stack: Seq<usize>,
    )
        requires
            self.wf(),
            self.sound(tokens, sets),
            0 <= e < sets.len(),
            e <= tokens.len(),
            0 <= k < sets[e].len(),
            e <= top < sets.len(),
            sets[e][k].start < top,
            forall|i: int|
                0 <= i < stack.len() ==> (#[trigger] stack[i]) < self.rules.len() && self.above(
                    sets,
                    top,
                    sets[e][k].start as int,
                    stack[i] as int,
                    if e == top {
                        k
                    } else {
                        0
                    },
                ),
        ensures
            forall|j: int|
                0 <= j < self.first_forest(tokens, sets, e, k).len() ==> (
                #[trigger] self.first_forest(tokens, sets, e, k)[j]).tidy(
                    self.labels_of(stack),
                    (top - sets[e][k].start) as nat,
                ),
        decreases e, k,
    {
        let it = sets[e][k];
        let key = it.key();
        let path = self.labels_of(stack);
        let span = (top - key.start) as nat;
        let forest = self.first_forest(tokens, sets, e, k);
        assert(self.item_ok(tokens, sets, e, k));
        if it.dot > 0 {
            let d = it.derivs[0];
            assert(self.deriv_ok(tokens, sets, e, key, k, d, true));
            match d {
                Derivation::Scan { pred } => {
                    assert(self.item_ok(tokens, sets, e - 1, pred as int));
                    assert forall|i: int| 0 <= i < stack.len() implies self.above(
                        sets,
                        top,
                        key.start,
                        (#[trigger] stack[i]) as int,
                        0,
                    ) by {
                        self.lemma_above_lower(sets, top, key.start, stack[i] as int, if e == top {
                            k
                        } else {
                            0
                        });
                    }
                    self.lemma_first_tidy(tokens, sets, e - 1, pred as int, top, stack);
                    let before = self.first_forest(tokens, sets, e - 1, pred as int);
                    assert forall|j: int| 0 <= j < forest.len() implies (#[trigger] forest[j]).tidy(
                        path,
                        span,
                    ) by {
                        if j < before.len() {
                            assert(forest[j] == before[j]);
                        }
                    }
                },
                Derivation::Nullable { pred } => {
                    assert(self.item_ok(tokens, sets, e, pred as int));
                    assert forall|i: int| 0 <= i < stack.len() implies self.above(
                        sets,
                        top,
                        key.start,
                        (#[trigger] stack[i]) as int,
                        if e == top {
                            pred as int
                        } else {
                            0
                        },
                    ) by {
                        if e == top {
                            let c = choose|c: int|
                                k <= c < sets[top].len() && (#[trigger] sets[top][c]).key() == (Key {
                                    rule: stack[i] as int,
                                    dot: self.rules[stack[i] as int].body.len() as int,
                                    start: key.start,
                                });
                            assert(pred <= c);
                        }
                    }
                    self.lemma_first_tidy(tokens, sets, e, pred as int, top, stack);
                    let before = self.first_forest(tokens, sets, e, pred as int);
                    let x = self.next_symbol(sets[e][pred as int].key());
                    self.lemma_rule_named(key.rule);
                    self.lemma_epsilon_view(x);
                    self.lemma_epsilon_loose(x, Seq::empty());
                    assert(self.labels_of(Seq::empty()) =~= Seq::<Seq<char>>::empty());
                    assert forall|j: int| 0 <= j < forest.len() implies (#[trigger] forest[j]).tidy(
                        path,
                        span,
                    ) by {
                        if j < before.len() {
                            assert(forest[j] == before[j]);
                        }
                    }
                },
                Derivation::Complete { origin, pred, cause } => {
                    assert(self.item_ok(tokens, sets, origin as int, pred as int));
                    assert(self.item_ok(tokens, sets, e, cause as int));
                    assert forall|i: int| 0 <= i < stack.len() implies self.above(
                        sets,
                        top,
                        key.start,
                        (#[trigger] stack[i]) as int,
                        0,
                    ) by {
                        self.lemma_above_lower(sets, top, key.start, stack[i] as int, if e == top {
                            k
                        } else {
                            0
                        });
                    }
                    self.lemma_first_tidy(tokens, sets, origin as int, pred as int, top, stack);
                    let before = self.first_forest(tokens, sets, origin as int, pred as int);
                    let done = sets[e][cause as int].key();
                    let kids = self.first_forest(tokens, sets, e, cause as int);
                    let label = self.rules[done.rule].label@;
                    let tree = TreeView::Node(label, kids);
                    self.lemma_first_forest(tokens, sets, e, cause as int);
                    assert(tree.fringe() == fringe_of(kids));
                    let own = (e - origin) as nat;
                    let same = origin == key.start && e == top;
                    let inner = if same {
                        stack
                    } else {
                        Seq::<usize>::empty()
                    };
                    let next = inner.push(done.rule as usize);
                    assert forall|i: int| 0 <= i < next.len() implies (#[trigger] next[i])
                        < self.rules.len() && self.above(
                        sets,
                        e,
                        origin as int,
                        next[i] as int,
                        cause as int,
                    ) by {
                        if i < inner.len() {
                            assert(next[i] == stack[i]);
                            let c = choose|c: int|
                                k <= c < sets[top].len() && (#[trigger] sets[top][c]).key() == (Key {
                                    rule: stack[i] as int,
                                    dot: self.rules[stack[i] as int].body.len() as int,
                                    start: key.start,
                                });
                            assert(cause <= c);
                        } else {
                            assert(sets[e][cause as int].key() == done);
                        }
                    }
                    self.lemma_first_tidy(tokens, sets, e, cause as int, e, next);
                    assert(self.labels_of(next) =~= self.labels_of(inner).push(label));
                    assert(self.labels_of(Seq::empty()) =~= Seq::<Seq<char>>::empty());
                    if same && path.contains(label) {
                        let i = choose|i: int| 0 <= i < path.len() && path[i] == label;
                        self.lemma_same_label(stack[i] as int, done.rule);
                        let c = choose|c: int|
                            k <= c < sets[top].len() && (#[trigger] sets[top][c]).key() == (Key {
                                rule: stack[i] as int,
                                dot: self.rules[stack[i] as int].body.len() as int,
                                start: key.start,
                            });
                        assert(sets[e][cause as int].key() == sets[e][c].key());
                        assert(sets[e][cause as int].key() != sets[e][c].key());
                    }
                    assert(tree.tidy(path, span));
                    assert forall|j: int| 0 <= j < forest.len() implies (#[trigger] forest[j]).tidy(
                        path,
                        span,
                    ) by {
                        if j < before.len() {
                            assert(forest[j] == before[j]);
                        }
                    }
                },
            }
        }
    }

    /// An item that stands at `floor` or behind it stands at the front or
    /// behind it.
    pub(crate) proof fn lemma_above_lower(
        &self,
        sets: Seq<Seq<Item>>,
        top: int,
        start: int,
        q: int,
        floor: int,
    )
        requires
            self.above(sets, top, start, q, floor),
            0 <= floor,
        ensures
            self.above(sets, top, start, q, 0),
    {
        let c = choose|c: int|
            floor <= c < sets[top].len() && (#[trigger] sets[top][c]).key() == (Key {
                rule: q,
                dot: self.rules[q].body.len() as int,
                start: start,
            });
        assert(sets[top][c].key() == Key { rule: q, dot: self.rules[q].body.len() as int, start: start });
    }
}

} // verus!
