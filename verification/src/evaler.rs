//! The semantic evaluator: it folds user-supplied actions over the parses
//! of an accepted input.
use crate::forest::listed;
use crate::parser::ParseState;
use crate::tree::{tidy_parse, Tree, TreeView};
use vstd::prelude::*;
use vstd::string::*;

verus! {

/// Why an evaluation failed.
#[derive(Debug, PartialEq, Eq)]
pub enum EvalError {
    /// A rule whose body is not a single symbol has no action; the field is
    /// the rule's printed form.
    UnhandledRule(String),
    /// The leaf function failed; the field is its message.
    LeafFnFailed(String),
    /// An action failed; the field is its message.
    ActionFailed(String),
}

/// The actions that are registered for rules.
pub trait Actions<V> {
    /// Whether every action can be called on every list of values.
    spec fn total(&self) -> bool;

    /// Whether `answer` is what the action for the rule printed as `label`
    /// may say of `values`; `None` where no action is registered for the
    /// rule.
    spec fn answers(
        &self,
        label: Seq<char>,
        values: Vec<V>,
        answer: Option<Result<V, String>>,
    ) -> bool;

    /// Calls the action that is registered for the rule printed as
    /// `label`, if there is one.
    fn apply(&self, label: &String, values: &Vec<V>) -> (answer: Option<Result<V, String>>)
        requires
            self.total(),
        ensures
            self.answers(label@, *values, answer),
    ;
}

/// No action at all.
pub struct NoAction {}

impl<V> Actions<V> for NoAction {
    open spec fn total(&self) -> bool {
        true
    }

    open spec fn answers(
        &self,
        label: Seq<char>,
        values: Vec<V>,
        answer: Option<Result<V, String>>,
    ) -> bool {
        answer is None
    }

    fn apply(&self, label: &String, values: &Vec<V>) -> (answer: Option<Result<V, String>>) {
        None
    }
}

/// One action, registered for the rule printed as `label`, on top of the
/// actions `below`; it hides an action for the same rule among them.
pub struct Layer<A, F> {
    pub below: A,
    pub label: String,
    pub action: F,
}

impl<V, A: Actions<V>, F: Fn(&Vec<V>) -> Result<V, String>> Actions<V> for Layer<A, F> {
    open spec fn total(&self) -> bool {
        self.below.total() && forall|values: &Vec<V>| call_requires(self.action, (values,))
    }

    open spec fn answers(
        &self,
        label: Seq<char>,
        values: Vec<V>,
        answer: Option<Result<V, String>>,
    ) -> bool {
        if label == self.label@ {
            answer matches Some(said) && call_ensures(self.action, (&values,), said)
        } else {
            self.below.answers(label, values, answer)
        }
    }

    fn apply(&self, label: &String, values: &Vec<V>) -> (answer: Option<Result<V, String>>) {
        if *label == self.label {
            Some((self.action)(values))
        } else {
            self.below.apply(label, values)
        }
    }
}

/// A leaf function and the actions of the rules. The leaf function gives
/// the value of a terminal's name and lexeme. An action gives the value of
/// a rule from the values of its body symbols.
pub struct EarleyEvaler<L, A> {
    pub leaf: L,
    pub actions: A,
}

impl<L> EarleyEvaler<L, NoAction> {
    /// An evaluator with this leaf function and no action.
    pub fn new(leaf: L) -> (r: EarleyEvaler<L, NoAction>)
        ensures
            r.leaf == leaf,
    {
        EarleyEvaler { leaf, actions: NoAction {  } }
    }
}

/// What a node evaluates to once `answer` is what the action function said
/// of its children's values: the action's value or failure; without an
/// action the only child's value, or `UnhandledRule` where the children
/// are not exactly one.
pub open spec fn node_result<V>(
    label: String,
    values: Seq<V>,
    answer: Option<Result<V, String>>,
) -> Result<V, EvalError> {
    match answer {
        Some(Ok(value)) => Ok(value),
        Some(Err(message)) => Err(EvalError::ActionFailed(message)),
        None => if values.len() == 1 {
            Ok(values[0])
        } else {
            Err(EvalError::UnhandledRule(label))
        },
    }
}

/// What a leaf evaluates to once `answer` is what the leaf function said.
pub open spec fn leaf_result<V>(answer: Result<V, String>) -> Result<V, EvalError> {
    match answer {
        Ok(value) => Ok(value),
        Err(message) => Err(EvalError::LeafFnFailed(message)),
    }
}

impl<L, A> EarleyEvaler<L, A> {
    /// Whether `out` is a result of evaluating `tree`: a leaf evaluates to
    /// what the leaf function gives; a node to the failure of its first
    /// child that fails, or else to what `node_result` says of the
    /// children's values.
    #[verifier::opaque]
    pub open spec fn evaluates<V>(&self, tree: Tree, out: Result<V, EvalError>) -> bool where
        L: Fn(&String, &String) -> Result<V, String>,
        A: Actions<V>,

        decreases tree, 1nat,
    {
        match tree {
            Tree::Leaf(name, lexeme) => exists|answer: Result<V, String>|
                #![trigger leaf_result(answer)]
                call_ensures(self.leaf, (&name, &lexeme), answer) && out == leaf_result(answer),
            Tree::Node(label, kids) => exists|values: Vec<V>|
                #![trigger values@]
                {
                    &&& values.len() <= kids.len()
                    &&& forall|i: int|
                        0 <= i < values.len() ==> self.evaluates(kids[i], Ok::<V, EvalError>(#[trigger] values[i]))
                    &&& if values.len() < kids.len() {
                        out is Err && self.evaluates(kids[values.len() as int], out)
                    } else {
                        exists|answer: Option<Result<V, String>>|
                            #![trigger node_result(label, values@, answer)]
                            self.actions.answers(label@, values, answer) && out == node_result(
                                label,
                                values@,
                                answer,
                            )
                    }
                },
        }
    }

    /// The evaluator with one more action: `action` gives the value of the
    /// rule printed as `label`, in place of an earlier action for that
    /// rule.
    pub fn action<F>(self, label: &str, action: F) -> (r: EarleyEvaler<L, Layer<A, F>>)
        ensures
            r.leaf == self.leaf,
            r.actions.below == self.actions,
            r.actions.label@ == label@,
            r.actions.action == action,
    {
        EarleyEvaler {
            leaf: self.leaf,
            actions: Layer { below: self.actions, label: String::from_str(label), action },
        }
    }

    /// Whether the leaf function and the actions can be called on every
    /// argument.
    pub open spec fn total<V>(&self) -> bool where
        L: Fn(&String, &String) -> Result<V, String>,
        A: Actions<V>,
     {
        &&& forall|name: &String, lexeme: &String| call_requires(self.leaf, (name, lexeme))
        &&& self.actions.total()
    }

    /// Evaluates `tree` bottom-up, children from left to right.
    pub fn eval_tree<V>(&self, tree: &Tree) -> (r: Result<V, EvalError>) where
        L: Fn(&String, &String) -> Result<V, String>,
        A: Actions<V>,

        requires
            self.total::<V>(),
        ensures
            self.evaluates(*tree, r),
        decreases tree,
    {
        reveal(EarleyEvaler::evaluates);
        match tree {
            Tree::Leaf(name, lexeme) => {
                let answer = (self.leaf)(name, lexeme);
                match answer {
                    Ok(value) => {
                        assert(Ok::<V, EvalError>(value) == leaf_result(answer));
                        Ok(value)
                    },
                    Err(message) => {
                        let r = Err(EvalError::LeafFnFailed(message));
                        assert(r == leaf_result(answer));
                        r
                    },
                }
            },
            Tree::Node(label, kids) => {
                let mut values: Vec<V> = Vec::new();
                let mut i: usize = 0;
                while i < kids.len()
                    invariant
                        i <= kids.len(),
                        values.len() == i,
                        self.total::<V>(),
                        *tree == Tree::Node(*label, *kids),
                        forall|j: int|
                            0 <= j < i ==> self.evaluates(kids[j], Ok::<V, EvalError>(#[trigger] values[j])),
                    decreases kids.len() - i,
                {
                    assert(decreases_to!(tree => kids[i as int])) by {
                        assert(decreases_to!(*kids => kids[i as int]));
                        assert(tree->Node_1 == *kids);
                        assert(decreases_to!(tree => tree->Node_1));
                    }
                    match self.eval_tree(&kids[i]) {
                        Ok(value) => {
                            values.push(value);
                        },
                        Err(e) => {
                            let r = Err(e);
                            assert(self.evaluates(*tree, r)) by {
                                reveal(EarleyEvaler::evaluates);
                                assert(values@.len() < kids.len());
                                assert(self.evaluates(kids[values.len() as int], r));
                            }
                            return r;
                        },
                    }
                    i += 1;
                }
                let answer = self.actions.apply(label, &values);
                let ghost seen = values;
                let r = match answer {
                    Some(Ok(value)) => Ok(value),
                    Some(Err(message)) => Err(EvalError::ActionFailed(message)),
                    None => {
                        if values.len() == 1 {
                            Ok(values.pop().unwrap())
                        } else {
                            Err(EvalError::UnhandledRule(label.clone()))
                        }
                    },
                };
                proof {
                    reveal(EarleyEvaler::evaluates);
                    assert(r == node_result(*label, seen@, answer));
                    assert(seen.len() == kids.len());
                    assert(self.evaluates(*tree, r));
                }
                r
            },
        }
    }

    /// Evaluates the parse that the tree builder's `eval_one` returns.
    pub fn eval_one<V>(&self, state: &ParseState) -> (r: Result<V, EvalError>) where
        L: Fn(&String, &String) -> Result<V, String>,
        A: Actions<V>,

        requires
            self.total::<V>(),
        ensures
            exists|tree: Tree| #[trigger]
                tree@ == state.first_parse() && self.evaluates(tree, r),
    {
        let tree = Tree::builder().eval_one(state);
        let r = self.eval_tree(&tree);
        assert(tree@ == state.first_parse() && self.evaluates(tree, r));
        r
    }

    /// Evaluates every parse that the tree builder's `eval_all` returns, in
    /// that order, and stops at the first that fails: the error is that of
    /// the first parse that does not evaluate to a value.
    pub fn eval_all<V>(&self, state: &ParseState) -> (r: Result<Vec<V>, EvalError>) where
        L: Fn(&String, &String) -> Result<V, String>,
        A: Actions<V>,

        requires
            self.total::<V>(),
        ensures
            exists|trees: Vec<Tree>|
                #![trigger trees@]
                {
                    &&& forall|i: int|
                        0 <= i < trees.len() ==> state.grammar().parses(
                            (#[trigger] trees[i])@,
                            state.input(),
                        ) && tidy_parse(trees[i]@, state.input().len())
                    &&& forall|tree: TreeView|
                        #[trigger] state.grammar().parses(tree, state.input()) && tidy_parse(
                            tree,
                            state.input().len(),
                        ) ==> listed(trees@, tree)
                    &&& forall|i: int, j: int|
                        0 <= i < j < trees.len() ==> (#[trigger] trees[i])@ != (#[trigger] trees[j])@
                    &&& match r {
                        Ok(values) => values.len() == trees.len() && forall|i: int|
                            0 <= i < trees.len() ==> self.evaluates(
                                trees[i],
                                Ok::<V, EvalError>(#[trigger] values[i]),
                            ),
                        Err(e) => exists|done: Seq<V>|
                            #![trigger done.len()]
                            {
                                &&& done.len() < trees.len()
                                &&& forall|i: int|
                                    0 <= i < done.len() ==> self.evaluates(
                                        trees[i],
                                        Ok::<V, EvalError>(#[trigger] done[i]),
                                    )
                                &&& self.evaluates(
                                    trees[done.len() as int],
                                    Err::<V, EvalError>(e),
                                )
                            },
                    }
                },
    {
        let trees = Tree::builder().eval_all(state);
        let mut values: Vec<V> = Vec::new();
        let mut i: usize = 0;
        while i < trees.len()
            invariant
                i <= trees.len(),
                values.len() == i,
                self.total::<V>(),
                forall|j: int|
                    0 <= j < trees.len() ==> state.grammar().parses(
                        (#[trigger] trees[j])@,
                        state.input(),
                    ) && tidy_parse(trees[j]@, state.input().len()),
                forall|tree: TreeView|
                    #[trigger] state.grammar().parses(tree, state.input()) && tidy_parse(
                        tree,
                        state.input().len(),
                    ) ==> listed(trees@, tree),
                forall|j: int, q: int|
                    0 <= j < q < trees.len() ==> (#[trigger] trees[j])@ != (#[trigger] trees[q])@,
                forall|j: int|
                    0 <= j < i ==> self.evaluates(trees[j], Ok::<V, EvalError>(#[trigger] values[j])),
            decreases trees.len() - i,
        {
            match self.eval_tree(&trees[i]) {
                Ok(value) => {
                    values.push(value);
                },
                Err(e) => {
                    let r = Err(e);
                    proof {
                        let done = values@;
                        assert(done.len() < trees.len());
                        assert(self.evaluates(trees[done.len() as int], Err::<V, EvalError>(e)));
                    }
                    return r;
                },
            }
            i += 1;
        }
        Ok(values)
    }
}

} // verus!
