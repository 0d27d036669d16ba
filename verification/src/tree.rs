//! Concrete syntax trees and s-expressions.
use vstd::prelude::*;

verus! {

/// A concrete syntax tree: a leaf holds a terminal's name and the lexeme it
/// matched, a node holds the label of a rule and one child per body symbol.
#[derive(Debug, PartialEq)]
pub enum Tree {
    Leaf(String, String),
    Node(String, Vec<Tree>),
}

/// The mathematical value of a [`Tree`].
pub enum TreeView {
    Leaf(Seq<char>, Seq<char>),
    Node(Seq<char>, Seq<TreeView>),
}

impl View for Tree {
    type V = TreeView;

    open spec fn view(&self) -> TreeView
        decreases self,
    {
        match self {
            Tree::Leaf(name, lexeme) => TreeView::Leaf(name@, lexeme@),
            Tree::Node(label, kids) => TreeView::Node(
                label@,
                Seq::new(
                    kids.len() as nat,
                    |i: int|
                        if 0 <= i < kids.len() {
                            kids[i]@
                        } else {
                            TreeView::Leaf(Seq::empty(), Seq::empty())
                        },
                ),
            ),
        }
    }
}

/// The views of a sequence of trees, element by element.
pub open spec fn views(trees: Seq<Tree>) -> Seq<TreeView> {
    Seq::new(trees.len(), |i: int| trees[i]@)
}

/// The view of a node is its label with the views of its children.
pub proof fn lemma_node_view(label: String, kids: Vec<Tree>)
    ensures
        Tree::Node(label, kids)@ == TreeView::Node(label@, views(kids@)),
{
    let t = Tree::Node(label, kids);
    assert(t@->Node_1 =~= views(kids@));
}

impl TreeView {
    /// The lexemes at the leaves, left to right.
    pub open spec fn fringe(self) -> Seq<Seq<char>>
        decreases self,
    {
        match self {
            TreeView::Leaf(_, lexeme) => seq![lexeme],
            TreeView::Node(_, kids) => fringe_of(kids),
        }
    }

    /// The number of nodes on the longest path from the root to a leaf or to
    /// a node without children.
    pub open spec fn height(self) -> nat
        decreases self,
    {
        match self {
            TreeView::Leaf(_, _) => 1,
            TreeView::Node(_, kids) => 1 + max_height(kids),
        }
    }

    /// Whether no node of the tree carries a label of `path`, or the label
    /// of a node above it in the tree.
    pub open spec fn loose(self, path: Seq<Seq<char>>) -> bool
        decreases self,
    {
        match self {
            TreeView::Leaf(_, _) => true,
            TreeView::Node(label, kids) => !path.contains(label) && forall|i: int|
                0 <= i < kids.len() ==> (#[trigger] kids[i]).loose(path.push(label)),
        }
    }

    /// Whether no node of the tree repeats the label of a node above it
    /// that has the same leaves. `path` holds the labels of the nodes above
    /// the tree that have `span` leaves; a node with as many leaves has the
    /// same leaves and must carry none of these labels. A node without
    /// leaves must be `loose` by itself.
    pub open spec fn tidy(self, path: Seq<Seq<char>>, span: nat) -> bool
        decreases self,
    {
        match self {
            TreeView::Leaf(_, _) => true,
            TreeView::Node(label, kids) => {
                let own = self.fringe().len();
                if own == 0 {
                    self.loose(Seq::empty())
                } else {
                    let above = if own == span {
                        path
                    } else {
                        Seq::empty()
                    };
                    !above.contains(label) && forall|i: int|
                        0 <= i < kids.len() ==> (#[trigger] kids[i]).tidy(above.push(label), own)
                }
            },
        }
    }
}

/// Whether a parse of `tokens` tokens applies no rule again within its own
/// application to the same input: a parse of the empty input is `loose`, a
/// parse of other input is `tidy`.
pub open spec fn tidy_parse(tree: TreeView, tokens: nat) -> bool {
    if tokens == 0 {
        tree.loose(Seq::empty())
    } else {
        tree.tidy(Seq::empty(), 0)
    }
}

/// The lexemes at the leaves of a sequence of trees, left to right.
pub open spec fn fringe_of(trees: Seq<TreeView>) -> Seq<Seq<char>>
    decreases trees, 0nat,
{
    if trees.len() == 0 {
        Seq::empty()
    } else {
        fringe_of(trees.drop_last()) + trees.last().fringe()
    }
}

/// The greatest height among a sequence of trees, zero when there is none.
pub open spec fn max_height(trees: Seq<TreeView>) -> nat
    decreases trees, 0nat,
{
    if trees.len() == 0 {
        0
    } else {
        let rest = max_height(trees.drop_last());
        let last = trees.last().height();
        if rest >= last {
            rest
        } else {
            last
        }
    }
}

/// The fringe of trees followed by one more is their fringe followed by
/// that of the last.
pub proof fn lemma_fringe_push(trees: Seq<TreeView>, last: TreeView)
    ensures
        fringe_of(trees.push(last)) == fringe_of(trees) + last.fringe(),
{
    assert(trees.push(last).drop_last() =~= trees);
}

/// Trees whose fringe is empty have empty fringes, each of them.
pub proof fn lemma_fringe_parts(trees: Seq<TreeView>, k: int)
    requires
        0 <= k < trees.len(),
    ensures
        trees[k].fringe().len() <= fringe_of(trees).len(),
    decreases trees.len(),
{
    if k < trees.len() - 1 {
        lemma_fringe_parts(trees.drop_last(), k);
    }
}

/// Trees with empty fringes have an empty fringe together.
pub proof fn lemma_fringe_none(trees: Seq<TreeView>)
    requires
        forall|k: int| 0 <= k < trees.len() ==> (#[trigger] trees[k]).fringe().len() == 0,
    ensures
        fringe_of(trees) =~= Seq::<Seq<char>>::empty(),
    decreases trees.len(),
{
    if trees.len() > 0 {
        lemma_fringe_none(trees.drop_last());
        assert(trees.last() == trees[trees.len() - 1]);
    }
}

/// No tree is higher than the greatest height.
pub proof fn lemma_height_parts(trees: Seq<TreeView>, k: int)
    requires
        0 <= k < trees.len(),
    ensures
        trees[k].height() <= max_height(trees),
    decreases trees.len(),
{
    if k < trees.len() - 1 {
        lemma_height_parts(trees.drop_last(), k);
    }
}

/// Trees that are all at most `bound` high have a greatest height of at
/// most `bound`.
pub proof fn lemma_height_bound(trees: Seq<TreeView>, bound: nat)
    requires
        forall|k: int| 0 <= k < trees.len() ==> (#[trigger] trees[k]).height() <= bound,
    ensures
        max_height(trees) <= bound,
    decreases trees.len(),
{
    if trees.len() > 0 {
        lemma_height_bound(trees.drop_last(), bound);
        assert(trees.last() == trees[trees.len() - 1]);
    }
}

impl Tree {
    /// Structural equality.
    pub fn same(&self, other: &Tree) -> (r: bool)
        ensures
            r == (self@ == other@),
        decreases self,
    {
        match self {
            Tree::Leaf(name, lexeme) => match other {
                Tree::Leaf(name2, lexeme2) => {
                    assert(self@ == TreeView::Leaf(name@, lexeme@));
                    assert(other@ == TreeView::Leaf(name2@, lexeme2@));
                    *name == *name2 && *lexeme == *lexeme2
                },
                Tree::Node(_, _) => {
                    assert(self@ is Leaf);
                    assert(other@ is Node);
                    false
                },
            },
            Tree::Node(label, kids) => match other {
                Tree::Leaf(_, _) => {
                    assert(self@ is Node);
                    assert(other@ is Leaf);
                    false
                },
                Tree::Node(label2, kids2) => {
                    proof {
                        lemma_node_view(*label, *kids);
                        lemma_node_view(*label2, *kids2);
                    }
                    if !(*label == *label2) || kids.len() != kids2.len() {
                        assert(views(kids@).len() == kids.len());
                        assert(views(kids2@).len() == kids2.len());
                        return false;
                    }
                    let mut i: usize = 0;
                    while i < kids.len()
                        invariant
                            i <= kids.len(),
                            kids.len() == kids2.len(),
                            *self == Tree::Node(*label, *kids),
                            self@ == TreeView::Node(label@, views(kids@)),
                            other@ == TreeView::Node(label2@, views(kids2@)),
                            label@ == label2@,
                            forall|j: int| 0 <= j < i ==> kids[j]@ == kids2[j]@,
                        decreases kids.len() - i,
                    {
                        assert(decreases_to!(self => kids[i as int])) by {
                            assert(decreases_to!(*kids => kids[i as int]));
                            assert(self->Node_1 == *kids);
                            assert(decreases_to!(self => self->Node_1));
                        }
                        if !kids[i].same(&kids2[i]) {
                            assert(views(kids@)[i as int] != views(kids2@)[i as int]);
                            return false;
                        }
                        i += 1;
                    }
                    assert(views(kids@) =~= views(kids2@));
                    true
                },
            },
        }
    }

    /// A copy of the tree.
    fn duplicate(&self) -> (r: Tree)
        ensures
            r@ == self@,
        decreases self,
    {
        match self {
            Tree::Leaf(name, lexeme) => Tree::Leaf(name.clone(), lexeme.clone()),
            Tree::Node(label, kids) => {
                let mut copy: Vec<Tree> = Vec::new();
                let mut i: usize = 0;
                while i < kids.len()
                    invariant
                        i <= kids.len(),
                        copy.len() == i,
                        *self == Tree::Node(*label, *kids),
                        forall|j: int| 0 <= j < i ==> copy[j]@ == kids[j]@,
                    decreases kids.len() - i,
                {
                    assert(decreases_to!(self => kids[i as int])) by {
                        assert(decreases_to!(*kids => kids[i as int]));
                        assert(self->Node_1 == *kids);
                        assert(decreases_to!(self => self->Node_1));
                    }
                    copy.push(kids[i].duplicate());
                    i += 1;
                }
                let label2 = label.clone();
                proof {
                    lemma_node_view(*label, *kids);
                    lemma_node_view(label2, copy);
                    assert(views(kids@) =~= views(copy@));
                }
                Tree::Node(label2, copy)
            },
        }
    }
}

impl Clone for Tree {
    fn clone(&self) -> (r: Tree)
        ensures
            r@ == self@,
    {
        self.duplicate()
    }
}

/// A copy of a sequence of trees.
pub fn duplicate_all(trees: &Vec<Tree>) -> (r: Vec<Tree>)
    ensures
        views(r@) == views(trees@),
{
    let mut copy: Vec<Tree> = Vec::new();
    let mut i: usize = 0;
    while i < trees.len()
        invariant
            i <= trees.len(),
            copy.len() == i,
            forall|j: int| 0 <= j < i ==> copy[j]@ == trees[j]@,
        decreases trees.len() - i,
    {
        copy.push(trees[i].duplicate());
        i += 1;
    }
    assert(views(copy@) =~= views(trees@));
    copy
}

/// An s-expression: an atom, or a list of s-expressions.
#[derive(Debug, PartialEq)]
pub enum Sexpr {
    Atom(String),
    List(Vec<Sexpr>),
}

/// The mathematical value of an [`Sexpr`].
pub enum SexprView {
    Atom(Seq<char>),
    List(Seq<SexprView>),
}

impl View for Sexpr {
    type V = SexprView;

    open spec fn view(&self) -> SexprView
        decreases self,
    {
        match self {
            Sexpr::Atom(text) => SexprView::Atom(text@),
            Sexpr::List(items) => SexprView::List(
                Seq::new(
                    items.len() as nat,
                    |i: int|
                        if 0 <= i < items.len() {
                            items[i]@
                        } else {
                            SexprView::Atom(Seq::empty())
                        },
                ),
            ),
        }
    }
}

impl Sexpr {
    /// A copy of the s-expression.
    fn duplicate(&self) -> (r: Sexpr)
        ensures
            r@ == self@,
        decreases self,
    {
        match self {
            Sexpr::Atom(text) => Sexpr::Atom(text.clone()),
            Sexpr::List(items) => {
                let mut copy: Vec<Sexpr> = Vec::new();
                let mut i: usize = 0;
                while i < items.len()
                    invariant
                        i <= items.len(),
                        copy.len() == i,
                        *self == Sexpr::List(*items),
                        forall|j: int| 0 <= j < i ==> copy[j]@ == items[j]@,
                    decreases items.len() - i,
                {
                    assert(decreases_to!(self => items[i as int])) by {
                        assert(decreases_to!(*items => items[i as int]));
                        assert(self->List_0 == *items);
                        assert(decreases_to!(self => self->List_0));
                    }
                    copy.push(items[i].duplicate());
                    i += 1;
                }
                let r = Sexpr::List(copy);
                proof {
                    assert(r@->List_0 =~= self@->List_0);
                }
                r
            },
        }
    }
}

impl Clone for Sexpr {
    fn clone(&self) -> (r: Sexpr)
        ensures
            r@ == self@,
    {
        self.duplicate()
    }
}

} // verus!
