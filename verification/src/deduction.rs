//! The items of Earley's algorithm as a deduction system, and the proof
//! that sound and closed state sets hold exactly the items that can be
//! deduced.
use crate::chart::{holds, Derivation, Item, Key};
use crate::grammar::Grammar;
use crate::nullable::chosen_ok;
use vstd::prelude::*;

verus! {

/// Why an item is in its state set.
pub enum Reason {
    /// Its rule is a rule of the start symbol, and the set is the first.
    Seed,
    /// An item of the same set, with the key in the second field, waits
    /// for the head of its rule.
    Predict(Box<Reason>, Key),
    /// The item with the dot one step earlier is in the set before, and
    /// the symbol behind its dot matches the token between the two.
    Scan(Box<Reason>),
    /// The item with the dot one step earlier is in the same set, and the
    /// symbol behind its dot derives the empty string.
    Nullable(Box<Reason>),
    /// The item with the dot one step earlier is in the set where a
    /// completed item of this set began, and waits for the head of that
    /// item's rule; the third field is the completed item's key.
    Complete(Box<Reason>, Box<Reason>, Key),
}

impl Key {
    /// The key with the dot one step earlier.
    pub open spec fn back(self) -> Key {
        Key { rule: self.rule, dot: self.dot - 1, start: self.start }
    }
}

impl Grammar {
    /// Whether `why` shows that the item with key `key` is in set `e`.
    pub open(crate) spec fn justifies(
        &self,
        tokens: Seq<Seq<char>>,
        why: Reason,
        key: Key,
        e: int,
    ) -> bool
        decreases why,
    {
        &&& self.key_ok(key)
        &&& 0 <= key.start <= e <= tokens.len()
        &&& match why {
            Reason::Seed => e == 0 && key.dot == 0 && self.rules[key.rule].head == self.start,
            Reason::Predict(parent, waiting) => {
                &&& key.dot == 0
                &&& key.start == e
                &&& self.justifies(tokens, *parent, waiting, e)
                &&& self.waits_for(waiting, key.rule)
            },
            Reason::Scan(before) => {
                &&& key.dot > 0
                &&& key.start < e
                &&& self.justifies(tokens, *before, key.back(), e - 1)
                &&& self.symbols[self.next_symbol(key.back())].accepts(tokens[e - 1])
            },
            Reason::Nullable(before) => {
                &&& key.dot > 0
                &&& self.justifies(tokens, *before, key.back(), e)
                &&& self.ranks()[self.next_symbol(key.back())] > 0
            },
            Reason::Complete(before, cause, done) => {
                &&& key.dot > 0
                &&& key.start <= done.start < e
                &&& self.justifies(tokens, *before, key.back(), done.start)
                &&& self.justifies(tokens, *cause, done, e)
                &&& self.is_complete(done)
                &&& self.waits_for(key.back(), done.rule)
            },
        }
    }

    /// Whether the item with key `key` can be deduced for set `e`: it is a
    /// rule of the start symbol at the front of the input, or it follows
    /// from items that can be deduced by prediction, by scanning a token,
    /// by stepping over a nullable symbol, or by completion with an item
    /// that spans input.
    pub open(crate) spec fn derivable(&self, tokens: Seq<Seq<char>>, key: Key, e: int) -> bool {
        exists|why: Reason| self.justifies(tokens, why, key, e)
    }

    /// Whether some item can be deduced for set `e`.
    pub open(crate) spec fn reached(&self, tokens: Seq<Seq<char>>, e: int) -> bool {
        exists|key: Key| self.derivable(tokens, key, e)
    }

    /// Every item of sound state sets can be deduced.
    pub(crate) proof fn lemma_item_reason(
        &self,
        tokens: Seq<Seq<char>>,
        sets: Seq<Seq<Item>>,
        e: int,
        k: int,
    ) -> (why: Reason)
        requires
            self.wf(),
            self.sound(tokens, sets),
            0 <= e < sets.len(),
            e <= tokens.len(),
            0 <= k < sets[e].len(),
        ensures
            self.justifies(tokens, why, sets[e][k].key(), e),
        decreases e, k,
    {
        let it = sets[e][k];
        let key = it.key();
        assert(self.item_ok(tokens, sets, e, k));
        if it.dot == 0 {
            if e == 0 && self.rules[key.rule].head == self.start {
                Reason::Seed
            } else {
                let j = choose|j: int|
                    0 <= j < k && j < sets[e].len() && self.waits_for(
                        (#[trigger] sets[e][j]).key(),
                        key.rule,
                    );
                let parent = self.lemma_item_reason(tokens, sets, e, j);
                Reason::Predict(Box::new(parent), sets[e][j].key())
            }
        } else {
            let d = it.derivs[0];
            assert(self.deriv_ok(tokens, sets, e, key, k, d, true));
            match d {
                Derivation::Scan { pred } => {
                    assert(self.item_ok(tokens, sets, e - 1, pred as int));
                    let before = self.lemma_item_reason(tokens, sets, e - 1, pred as int);
                    assert(sets[e - 1][pred as int].key() == key.back());
                    Reason::Scan(Box::new(before))
                },
                Derivation::Nullable { pred } => {
                    let before = self.lemma_item_reason(tokens, sets, e, pred as int);
                    assert(sets[e][pred as int].key() == key.back());
                    Reason::Nullable(Box::new(before))
                },
                Derivation::Complete { origin, pred, cause } => {
                    assert(self.item_ok(tokens, sets, origin as int, pred as int));
                    let before = self.lemma_item_reason(tokens, sets, origin as int, pred as int);
                    let done = self.lemma_item_reason(tokens, sets, e, cause as int);
                    assert(sets[origin as int][pred as int].key() == key.back());
                    Reason::Complete(Box::new(before), Box::new(done), sets[e][cause as int].key())
                },
            }
        }
    }

    /// Closed state sets hold every item that can be deduced.
    pub(crate) proof fn lemma_reason_held(
        &self,
        tokens: Seq<Seq<char>>,
        sets: Seq<Seq<Item>>,
        why: Reason,
        key: Key,
        e: int,
    )
        requires
            self.wf(),
            sets.len() == tokens.len() + 1,
            self.closed(tokens, sets, tokens.len() as int, sets[tokens.len() as int].len() as int),
            self.justifies(tokens, why, key, e),
        ensures
            holds(sets, e, key),
        decreases why,
    {
        self.lemma_rule_named(key.rule);
        match why {
            Reason::Seed => {},
            Reason::Predict(parent, waiting) => {
                self.lemma_reason_held(tokens, sets, *parent, waiting, e);
                let j = choose|j: int| 0 <= j < sets[e].len() && (#[trigger] sets[e][j]).key() == waiting;
                assert(self.processed(tokens, sets, e, j));
            },
            Reason::Scan(before) => {
                self.lemma_reason_held(tokens, sets, *before, key.back(), e - 1);
                let j = choose|j: int|
                    0 <= j < sets[e - 1].len() && (#[trigger] sets[e - 1][j]).key() == key.back();
                assert(self.processed(tokens, sets, e - 1, j));
                assert(key.back().advanced() == key);
            },
            Reason::Nullable(before) => {
                self.lemma_reason_held(tokens, sets, *before, key.back(), e);
                let j = choose|j: int| 0 <= j < sets[e].len() && (#[trigger] sets[e][j]).key() == key.back();
                assert(self.processed(tokens, sets, e, j));
                let x = self.next_symbol(key.back());
                assert(chosen_ok(self.rules@, self.ranks(), self.chosen@, x));
                self.lemma_rule_named(self.chosen[x] as int);
                assert(key.back().advanced() == key);
            },
            Reason::Complete(before, cause, done) => {
                self.lemma_reason_held(tokens, sets, *before, key.back(), done.start);
                self.lemma_reason_held(tokens, sets, *cause, done, e);
                let p = choose|p: int|
                    0 <= p < sets[done.start].len() && (#[trigger] sets[done.start][p]).key()
                        == key.back();
                let c = choose|c: int| 0 <= c < sets[e].len() && (#[trigger] sets[e][c]).key() == done;
                assert(self.processed(tokens, sets, e, c));
                assert(self.waits_for(sets[done.start][p].key(), done.rule));
                assert(key.back().advanced() == key);
            },
        }
    }

    /// Sound and closed state sets hold exactly the items that can be
    /// deduced.
    pub(crate) proof fn lemma_sets_exact(
        &self,
        tokens: Seq<Seq<char>>,
        sets: Seq<Seq<Item>>,
        key: Key,
        e: int,
    )
        requires
            self.wf(),
            self.sound(tokens, sets),
            sets.len() == tokens.len() + 1,
            self.closed(tokens, sets, tokens.len() as int, sets[tokens.len() as int].len() as int),
        ensures
            holds(sets, e, key) == self.derivable(tokens, key, e),
    {
        if holds(sets, e, key) {
            let k = choose|k: int| 0 <= k < sets[e].len() && (#[trigger] sets[e][k]).key() == key;
            let why = self.lemma_item_reason(tokens, sets, e, k);
        }
        if self.derivable(tokens, key, e) {
            let why = choose|why: Reason| self.justifies(tokens, why, key, e);
            self.lemma_reason_held(tokens, sets, why, key, e);
        }
    }

    /// A state set of sound and closed sets holds an item exactly if some
    /// item can be deduced for it.
    pub(crate) proof fn lemma_set_reached(
        &self,
        tokens: Seq<Seq<char>>,
        sets: Seq<Seq<Item>>,
        e: int,
    )
        requires
            self.wf(),
            self.sound(tokens, sets),
            sets.len() == tokens.len() + 1,
            self.closed(tokens, sets, tokens.len() as int, sets[tokens.len() as int].len() as int),
            0 <= e <= tokens.len(),
        ensures
            (sets[e].len() > 0) == self.reached(tokens, e),
    {
        if sets[e].len() > 0 {
            let key = sets[e][0].key();
            self.lemma_sets_exact(tokens, sets, key, e);
        }
        if self.reached(tokens, e) {
            let key = choose|key: Key| self.derivable(tokens, key, e);
            self.lemma_sets_exact(tokens, sets, key, e);
        }
    }
}

} // verus!
