//! Earley items, the derivations that justify them, and what it means for
//! a sequence of state sets to be sound and closed.
use crate::grammar::Grammar;
use vstd::prelude::*;

verus! {

/// How the dot of an item came to stand where it stands. The numbers are
/// positions in state sets: `pred` of the item with the dot one step
/// earlier, `cause` of the completed item that was stepped over.
#[derive(Debug, Clone, Copy, PartialEq, Eq)]
pub enum Derivation {
    /// The dot stepped over a terminal that matched the token before the
    /// item's end; `pred` is in the set before.
    Scan { pred: usize },
    /// The dot stepped over a nullable nonterminal without input; `pred` is
    /// in the item's own set.
    Nullable { pred: usize },
    /// The dot stepped over a nonterminal that `cause`, a completed item of
    /// the item's own set, derived from position `origin` on; `pred` is in
    /// set `origin`.
    Complete { origin: usize, pred: usize, cause: usize },
}

/// An Earley item: rule `rule` began to match at position `start`, and its
/// first `dot` body symbols match the input up to position `end`.
#[derive(Debug)]
pub struct Item {
    pub rule: usize,
    pub dot: usize,
    pub start: usize,
    pub end: usize,
    pub derivs: Vec<Derivation>,
}

/// What tells items of one state set apart.
pub struct Key {
    pub rule: int,
    pub dot: int,
    pub start: int,
}

impl Item {
    /// The item's identity within its set.
    pub open spec fn key(&self) -> Key {
        Key { rule: self.rule as int, dot: self.dot as int, start: self.start as int }
    }
}

impl Key {
    /// The key with the dot one step further.
    pub open spec fn advanced(self) -> Key {
        Key { rule: self.rule, dot: self.dot + 1, start: self.start }
    }
}

/// The texts of the tokens.
pub open spec fn lexemes(tokens: Seq<String>) -> Seq<Seq<char>> {
    Seq::new(tokens.len(), |i: int| tokens[i]@)
}

/// The state sets as sequences.
pub open spec fn sets_view(sets: Seq<Vec<Item>>) -> Seq<Seq<Item>> {
    Seq::new(sets.len(), |e: int| sets[e]@)
}

/// Whether set `e` holds an item with key `key`.
pub open spec fn holds(sets: Seq<Seq<Item>>, e: int, key: Key) -> bool {
    0 <= e < sets.len() && exists|k: int| 0 <= k < sets[e].len() && (#[trigger] sets[e][k]).key() == key
}

/// Whether set `e` holds an item with key `key` that has the derivation `d`.
pub open spec fn records(sets: Seq<Seq<Item>>, e: int, key: Key, d: Derivation) -> bool {
    0 <= e < sets.len() && exists|k: int|
        0 <= k < sets[e].len() && (#[trigger] sets[e][k]).key() == key && sets[e][k].derivs@.contains(
            d,
        )
}

impl Grammar {
    /// The symbol after the dot of an incomplete item with this key.
    pub open(crate) spec fn next_symbol(&self, key: Key) -> int {
        self.rules[key.rule].body[key.dot] as int
    }

    /// Whether the key names a rule and a dot within its body.
    pub open(crate) spec fn key_ok(&self, key: Key) -> bool {
        0 <= key.rule < self.rules.len() && 0 <= key.dot <= self.rules[key.rule].body.len()
    }

    /// Whether the dot stands at the end of the rule's body.
    pub open(crate) spec fn is_complete(&self, key: Key) -> bool {
        key.dot == self.rules[key.rule].body.len()
    }

    /// Whether derivation `d` justifies an item with key `it` at position
    /// `k` of set `e`. The first derivation of an item refers, within the
    /// item's own set, to earlier positions only.
    pub open(crate) spec fn deriv_ok(
        &self,
        tokens: Seq<Seq<char>>,
        sets: Seq<Seq<Item>>,
        e: int,
        it: Key,
        k: int,
        d: Derivation,
        first: bool,
    ) -> bool {
        match d {
            Derivation::Scan { pred } => {
                &&& 1 <= e <= tokens.len()
                &&& pred < sets[e - 1].len()
                &&& sets[e - 1][pred as int].key().advanced() == it
                &&& !self.is_complete(sets[e - 1][pred as int].key())
                &&& self.symbols[self.next_symbol(sets[e - 1][pred as int].key())].accepts(
                    tokens[e - 1],
                )
            },
            Derivation::Nullable { pred } => {
                &&& pred < sets[e].len()
                &&& first ==> pred < k
                &&& sets[e][pred as int].key().advanced() == it
                &&& !self.is_complete(sets[e][pred as int].key())
                &&& self.ranks()[self.next_symbol(sets[e][pred as int].key())] > 0
            },
            Derivation::Complete { origin, pred, cause } => {
                &&& origin < e
                &&& pred < sets[origin as int].len()
                &&& sets[origin as int][pred as int].key().advanced() == it
                &&& cause < sets[e].len()
                &&& first ==> cause < k
                &&& sets[e][cause as int].key().start == origin
                &&& self.key_ok(sets[e][cause as int].key())
                &&& self.is_complete(sets[e][cause as int].key())
                &&& self.waits_for(
                    sets[origin as int][pred as int].key(),
                    sets[e][cause as int].key().rule,
                )
            },
        }
    }

    /// Whether an item for rule `rule` with its dot at the front may stand
    /// at position `k` of set `e`: the rule's head is the start symbol and
    /// the set is the first, or an item before it in the set waits for the
    /// rule's head.
    pub open(crate) spec fn predicted(&self, set: Seq<Item>, e: int, k: int, rule: int) -> bool {
        ||| e == 0 && self.rules[rule].head == self.start
        ||| exists|j: int| 0 <= j < k && j < set.len() && self.waits_for((#[trigger] set[j]).key(), rule)
    }

    /// Whether the item at position `k` of set `e` is sound: it names a
    /// rule and a dot within it, began no later than it ends, is predicted
    /// if its dot stands at the front, and has a derivation exactly if its
    /// dot has moved, each of them justified.
    pub open(crate) spec fn item_ok(
        &self,
        tokens: Seq<Seq<char>>,
        sets: Seq<Seq<Item>>,
        e: int,
        k: int,
    ) -> bool {
        let it = sets[e][k];
        &&& self.key_ok(it.key())
        &&& it.start <= e
        &&& it.end == e
        &&& it.dot == 0 ==> it.start == e && it.derivs.len() == 0 && self.predicted(
            sets[e],
            e,
            k,
            it.rule as int,
        )
        &&& it.dot > 0 ==> it.derivs.len() > 0
        &&& forall|d: int|
            0 <= d < it.derivs.len() ==> self.deriv_ok(
                tokens,
                sets,
                e,
                it.key(),
                k,
                #[trigger] it.derivs[d],
                d == 0,
            )
    }

    /// Whether every item is sound and no set holds two items with one key.
    pub open(crate) spec fn sound(&self, tokens: Seq<Seq<char>>, sets: Seq<Seq<Item>>) -> bool {
        &&& forall|e: int, k: int|
            0 <= e < sets.len() && 0 <= k < sets[e].len() ==> self.item_ok(tokens, sets, e, k)
                && (#[trigger] sets[e][k]).end == e
        &&& forall|e: int, k: int, j: int|
            0 <= e < sets.len() && 0 <= k < j < sets[e].len() ==> (#[trigger] sets[e][k]).key() != (
            #[trigger] sets[e][j]).key()
    }

    /// Whether an item with this key waits for the head of rule `rule`.
    pub open(crate) spec fn waits_for(&self, key: Key, rule: int) -> bool {
        !self.is_complete(key) && self.next_symbol(key) == self.rules[rule].head
    }

    /// Whether everything that follows from the item at position `k` of set
    /// `e` is in the sets: what it predicts, and, with the derivation that
    /// says so, the item after a nullable symbol or after a matching token,
    /// and for a completed item that spans input the items that it
    /// advances.
    pub open(crate) spec fn processed(
        &self,
        tokens: Seq<Seq<char>>,
        sets: Seq<Seq<Item>>,
        e: int,
        k: int,
    ) -> bool {
        let it = sets[e][k].key();
        if !self.is_complete(it) {
            let x = self.next_symbol(it);
            if self.symbols[x] is Terminal {
                e < tokens.len() && self.symbols[x].accepts(tokens[e]) ==> records(
                    sets,
                    e + 1,
                    it.advanced(),
                    Derivation::Scan { pred: k as usize },
                )
            } else {
                &&& forall|r: int|
                    0 <= r < self.rules.len() && (#[trigger] self.rules[r]).head == x ==> holds(
                        sets,
                        e,
                        Key { rule: r, dot: 0, start: e },
                    )
                &&& self.ranks()[x] > 0 ==> records(
                    sets,
                    e,
                    it.advanced(),
                    Derivation::Nullable { pred: k as usize },
                )
            }
        } else {
            it.start < e ==> forall|p: int|
                0 <= p < sets[it.start].len() && self.waits_for(
                    (#[trigger] sets[it.start][p]).key(),
                    it.rule,
                ) ==> records(
                    sets,
                    e,
                    sets[it.start][p].key().advanced(),
                    Derivation::Complete {
                        origin: it.start as usize,
                        pred: p as usize,
                        cause: k as usize,
                    },
                )
        }
    }

    /// Whether the sets are closed up to position `upto` of set `last`: the
    /// first set holds every rule of the start symbol, and every item
    /// before that position is processed.
    pub open(crate) spec fn closed(
        &self,
        tokens: Seq<Seq<char>>,
        sets: Seq<Seq<Item>>,
        last: int,
        upto: int,
    ) -> bool {
        &&& forall|r: int|
            0 <= r < self.rules.len() && (#[trigger] self.rules[r]).head == self.start ==> holds(
                sets,
                0,
                Key { rule: r, dot: 0, start: 0 },
            )
        &&& forall|e: int, k: int|
            0 <= e < last && 0 <= k < sets[e].len() ==> self.processed(tokens, sets, e, k) && (
            #[trigger] sets[e][k]).end == e
        &&& forall|k: int|
            0 <= k < upto ==> self.processed(tokens, sets, last, k) && (#[trigger] sets[last][k]).end
                == last
    }
}

/// Whether `after` holds everything that `before` holds, at the same
/// positions, and nothing new in the sets before `last`.
pub open spec fn extends(before: Seq<Seq<Item>>, after: Seq<Seq<Item>>, last: int) -> bool {
    &&& after.len() == before.len()
    &&& forall|e: int| 0 <= e < before.len() ==> before[e].len() <= (#[trigger] after[e]).len()
    &&& forall|e: int| 0 <= e < last && e < before.len() ==> before[e].len() == (#[trigger] after[e]).len()
    &&& forall|e: int, k: int|
        0 <= e < before.len() && 0 <= k < before[e].len() ==> (#[trigger] after[e][k]).key()
            == before[e][k].key() && after[e][k].end == before[e][k].end && before[e][k].derivs@.is_prefix_of(
            after[e][k].derivs@,
        )
}

/// Growing twice is growing.
pub proof fn lemma_extends_twice(
    first: Seq<Seq<Item>>,
    second: Seq<Seq<Item>>,
    third: Seq<Seq<Item>>,
    last: int,
)
    requires
        extends(first, second, last),
        extends(second, third, last),
    ensures
        extends(first, third, last),
{
    assert forall|e: int| 0 <= e < first.len() implies first[e].len() <= (#[trigger] third[e]).len() by {
        assert(first[e].len() <= second[e].len());
    }
    assert forall|e: int| 0 <= e < last && e < first.len() implies first[e].len() == (
    #[trigger] third[e]).len() by {
        assert(first[e].len() == second[e].len());
    }
    assert forall|e: int, k: int| 0 <= e < first.len() && 0 <= k < first[e].len() implies (
    #[trigger] third[e][k]).key() == first[e][k].key() && third[e][k].end == first[e][k].end
        && first[e][k].derivs@.is_prefix_of(third[e][k].derivs@) by {
        assert(first[e].len() <= second[e].len());
        assert(second[e][k].key() == first[e][k].key());
        assert(first[e][k].derivs@.is_prefix_of(second[e][k].derivs@));
        assert(second[e][k].derivs@.is_prefix_of(third[e][k].derivs@));
    }
}

/// What is in a set stays in it when the sets grow.
pub proof fn lemma_holds_stays(before: Seq<Seq<Item>>, after: Seq<Seq<Item>>, last: int, e: int, key: Key)
    requires
        extends(before, after, last),
        holds(before, e, key),
    ensures
        holds(after, e, key),
{
    let k = choose|k: int| 0 <= k < before[e].len() && (#[trigger] before[e][k]).key() == key;
    assert(after[e][k].key() == key);
}

/// A derivation that an item has stays with it when the sets grow.
pub proof fn lemma_records_stay(
    before: Seq<Seq<Item>>,
    after: Seq<Seq<Item>>,
    last: int,
    e: int,
    key: Key,
    d: Derivation,
)
    requires
        extends(before, after, last),
        records(before, e, key, d),
    ensures
        records(after, e, key, d),
{
    let k = choose|k: int|
        0 <= k < before[e].len() && (#[trigger] before[e][k]).key() == key
            && before[e][k].derivs@.contains(d);
    assert(after[e][k].key() == key);
    let old = before[e][k].derivs@;
    let new = after[e][k].derivs@;
    assert(old.is_prefix_of(new));
    let j = choose|j: int| 0 <= j < old.len() && old[j] == d;
    assert(new[j] == d);
}

impl Grammar {
    /// A processed item stays processed when the sets grow behind it.
    pub(crate) proof fn lemma_processed_stays(
        &self,
        tokens: Seq<Seq<char>>,
        before: Seq<Seq<Item>>,
        after: Seq<Seq<Item>>,
        last: int,
        e: int,
        k: int,
    )
        requires
            extends(before, after, last),
            0 <= e <= last,
            e < before.len(),
            0 <= k < before[e].len(),
            before[e][k].start <= e,
            self.processed(tokens, before, e, k),
        ensures
            self.processed(tokens, after, e, k),
    {
        let it = before[e][k].key();
        assert(after[e][k].key() == it);
        if !self.is_complete(it) {
            let x = self.next_symbol(it);
            if self.symbols[x] is Terminal {
                if e < tokens.len() && self.symbols[x].accepts(tokens[e]) {
                    lemma_records_stay(
                        before,
                        after,
                        last,
                        e + 1,
                        it.advanced(),
                        Derivation::Scan { pred: k as usize },
                    );
                }
            } else {
                assert forall|r: int|
                    0 <= r < self.rules.len() && (#[trigger] self.rules[r]).head == x implies holds(
                    after,
                    e,
                    Key { rule: r, dot: 0, start: e },
                ) by {
                    lemma_holds_stays(before, after, last, e, Key { rule: r, dot: 0, start: e });
                }
                if self.ranks()[x] > 0 {
                    lemma_records_stay(
                        before,
                        after,
                        last,
                        e,
                        it.advanced(),
                        Derivation::Nullable { pred: k as usize },
                    );
                }
            }
        } else {
            if it.start < e {
                assert(before[it.start].len() == after[it.start].len());
                assert forall|p: int|
                    0 <= p < after[it.start].len() && self.waits_for(
                        (#[trigger] after[it.start][p]).key(),
                        it.rule,
                    ) implies records(
                    after,
                    e,
                    after[it.start][p].key().advanced(),
                    Derivation::Complete {
                        origin: it.start as usize,
                        pred: p as usize,
                        cause: k as usize,
                    },
                ) by {
                    assert(after[it.start][p].key() == before[it.start][p].key());
                    lemma_records_stay(
                        before,
                        after,
                        last,
                        e,
                        before[it.start][p].key().advanced(),
                        Derivation::Complete {
                            origin: it.start as usize,
                            pred: p as usize,
                            cause: k as usize,
                        },
                    );
                }
            }
        }
    }

    /// Closed sets stay closed when they grow in their last two sets.
    pub(crate) proof fn lemma_closed_stays(
        &self,
        tokens: Seq<Seq<char>>,
        before: Seq<Seq<Item>>,
        after: Seq<Seq<Item>>,
        last: int,
        upto: int,
    )
        requires
            extends(before, after, last),
            0 <= last < before.len(),
            0 <= upto <= before[last].len(),
            self.closed(tokens, before, last, upto),
            forall|e: int, k: int|
                0 <= e < before.len() && 0 <= k < before[e].len() ==> (#[trigger] before[e][k]).start
                    <= e,
        ensures
            self.closed(tokens, after, last, upto),
    {
        assert forall|r: int|
            0 <= r < self.rules.len() && (#[trigger] self.rules[r]).head == self.start implies holds(
            after,
            0,
            Key { rule: r, dot: 0, start: 0 },
        ) by {
            lemma_holds_stays(before, after, last, 0, Key { rule: r, dot: 0, start: 0 });
        }
        assert forall|e: int, k: int| 0 <= e < last && 0 <= k < after[e].len() implies self.processed(
            tokens,
            after,
            e,
            k,
        ) && (#[trigger] after[e][k]).end == e by {
            assert(before[e].len() == after[e].len());
            assert(before[e][k].start <= e);
            assert(before[e][k].end == e);
            self.lemma_processed_stays(tokens, before, after, last, e, k);
        }
        assert forall|k: int| 0 <= k < upto implies self.processed(tokens, after, last, k) && (
        #[trigger] after[last][k]).end == last by {
            assert(before[last][k].start <= last);
            assert(before[last][k].end == last);
            self.lemma_processed_stays(tokens, before, after, last, last, k);
        }
    }
}

/// Whether set `at` holds the item `it` with its first derivation, if it
/// has one.
pub open spec fn records_new(sets: Seq<Seq<Item>>, at: int, it: Item) -> bool {
    it.derivs.len() == 1 ==> records(sets, at, it.key(), it.derivs[0])
}

/// Whether `after` is `before` with derivation `d` added to the item at
/// position `at`.
pub open spec fn derived(before: Seq<Item>, after: Seq<Item>, at: int, d: Derivation) -> bool {
    &&& after.len() == before.len()
    &&& 0 <= at < before.len()
    &&& forall|j: int| 0 <= j < before.len() && j != at ==> #[trigger] after[j] == before[j]
    &&& after[at].key() == before[at].key()
    &&& after[at].end == before[at].end
    &&& after[at].derivs@ == before[at].derivs@.push(d)
}

/// Whether `after` differs from `before` in set `at` only.
pub open spec fn same_but(before: Seq<Seq<Item>>, after: Seq<Seq<Item>>, at: int) -> bool {
    &&& after.len() == before.len()
    &&& 0 <= at < before.len()
    &&& forall|e: int| 0 <= e < before.len() && e != at ==> #[trigger] after[e] == before[e]
}

impl Grammar {
    /// A predicted item stays predicted when its set grows.
    pub(crate) proof fn lemma_predicted_stays(
        &self,
        before: Seq<Item>,
        after: Seq<Item>,
        e: int,
        k: int,
        rule: int,
    )
        requires
            self.predicted(before, e, k, rule),
            before.len() <= after.len(),
            forall|j: int| 0 <= j < before.len() ==> (#[trigger] after[j]).key() == before[j].key(),
        ensures
            self.predicted(after, e, k, rule),
    {
        if !(e == 0 && self.rules[rule].head == self.start) {
            let j = choose|j: int|
                0 <= j < k && j < before.len() && self.waits_for((#[trigger] before[j]).key(), rule);
            assert(self.waits_for(after[j].key(), rule));
        }
    }

    /// A justified derivation stays justified when the sets grow.
    pub(crate) proof fn lemma_deriv_stays(
        &self,
        tokens: Seq<Seq<char>>,
        before: Seq<Seq<Item>>,
        after: Seq<Seq<Item>>,
        e: int,
        it: Key,
        k: int,
        d: Derivation,
        first: bool,
    )
        requires
            extends(before, after, 0),
            0 <= e < before.len(),
            self.deriv_ok(tokens, before, e, it, k, d, first),
        ensures
            self.deriv_ok(tokens, after, e, it, k, d, first),
    {
        match d {
            Derivation::Scan { pred } => {
                assert(after[e - 1][pred as int].key() == before[e - 1][pred as int].key());
            },
            Derivation::Nullable { pred } => {
                assert(after[e][pred as int].key() == before[e][pred as int].key());
            },
            Derivation::Complete { origin, pred, cause } => {
                assert(after[origin as int][pred as int].key() == before[origin as int][pred as int].key());
                assert(after[e][cause as int].key() == before[e][cause as int].key());
            },
        }
    }

    /// Sound sets stay sound when a sound item with a new key is put at
    /// the end of one of them.
    pub(crate) proof fn lemma_item_added(
        &self,
        tokens: Seq<Seq<char>>,
        before: Seq<Seq<Item>>,
        after: Seq<Seq<Item>>,
        at: int,
        it: Item,
    )
        requires
            self.sound(tokens, before),
            same_but(before, after, at),
            after[at] == before[at].push(it),
            !holds(before, at, it.key()),
            self.key_ok(it.key()),
            it.start <= at,
            it.end == at,
            it.dot == 0 ==> it.start == at && it.derivs.len() == 0 && self.predicted(
                before[at],
                at,
                before[at].len() as int,
                it.rule as int,
            ),
            it.dot > 0 ==> it.derivs.len() == 1 && self.deriv_ok(
                tokens,
                before,
                at,
                it.key(),
                before[at].len() as int,
                it.derivs[0],
                true,
            ),
        ensures
            self.sound(tokens, after),
            extends(before, after, at),
            holds(after, at, it.key()),
            records_new(after, at, it),
    {
        let fresh = before[at].len() as int;
        assert(after[at][fresh] == it);
        assert(extends(before, after, at)) by {
            assert forall|e: int, k: int|
                0 <= e < before.len() && 0 <= k < before[e].len() implies (#[trigger] after[e][k])
                == before[e][k] by {}
        }
        assert(records_new(after, at, it)) by {
            assert(after[at][fresh].key() == it.key());
            if it.derivs.len() == 1 {
                assert(after[at][fresh].derivs@[0] == it.derivs[0]);
            }
        }
        assert forall|e: int, k: int| 0 <= e < after.len() && 0 <= k < after[e].len() implies self.item_ok(
            tokens,
            after,
            e,
            k,
        ) && (#[trigger] after[e][k]).end == e by {
            if e == at && k == fresh {
                if it.dot > 0 {
                    self.lemma_deriv_stays(tokens, before, after, at, it.key(), fresh, it.derivs[0], true);
                } else {
                    self.lemma_predicted_stays(before[at], after[at], at, fresh, it.rule as int);
                }
            } else {
                assert(after[e][k] == before[e][k]);
                assert(self.item_ok(tokens, before, e, k));
                let old = before[e][k];
                if old.dot == 0 {
                    self.lemma_predicted_stays(before[e], after[e], e, k, old.rule as int);
                }
                assert forall|d: int| 0 <= d < old.derivs.len() implies self.deriv_ok(
                    tokens,
                    after,
                    e,
                    old.key(),
                    k,
                    #[trigger] old.derivs[d],
                    d == 0,
                ) by {
                    self.lemma_deriv_stays(tokens, before, after, e, old.key(), k, old.derivs[d], d == 0);
                }
            }
        }
        assert forall|e: int, k: int, j: int|
            0 <= e < after.len() && 0 <= k < j < after[e].len() implies (#[trigger] after[e][k]).key()
            != (#[trigger] after[e][j]).key() by {
            if e == at && j == fresh {
                assert(before[at][k].key() != it.key());
            } else {
                assert(after[e][k] == before[e][k]);
                assert(after[e][j] == before[e][j]);
            }
        }
    }

    /// Sound sets stay sound when an item whose dot has moved gets one more
    /// justified derivation.
    pub(crate) proof fn lemma_deriv_added(
        &self,
        tokens: Seq<Seq<char>>,
        before: Seq<Seq<Item>>,
        after: Seq<Seq<Item>>,
        at: int,
        k: int,
        d: Derivation,
    )
        requires
            self.sound(tokens, before),
            same_but(before, after, at),
            derived(before[at], after[at], k, d),
            before[at][k].dot > 0,
            self.deriv_ok(tokens, before, at, before[at][k].key(), k, d, false),
        ensures
            self.sound(tokens, after),
            extends(before, after, at),
            records(after, at, before[at][k].key(), d),
    {
        assert(extends(before, after, at)) by {
            assert forall|e: int, j: int|
                0 <= e < before.len() && 0 <= j < before[e].len() implies (#[trigger] after[e][j]).key()
                == before[e][j].key() && after[e][j].end == before[e][j].end
                && before[e][j].derivs@.is_prefix_of(after[e][j].derivs@) by {
                if !(e == at && j == k) {
                    assert(after[e][j] == before[e][j]);
                }
            }
        }
        assert(records(after, at, before[at][k].key(), d)) by {
            let all = after[at][k].derivs@;
            assert(all[all.len() - 1] == d);
            assert(after[at][k].key() == before[at][k].key());
        }
        assert forall|e: int, j: int| 0 <= e < after.len() && 0 <= j < after[e].len() implies self.item_ok(
            tokens,
            after,
            e,
            j,
        ) && (#[trigger] after[e][j]).end == e by {
            assert(self.item_ok(tokens, before, e, j));
            let old = before[e][j];
            let new = after[e][j];
            assert(new.key() == old.key());
            if old.dot == 0 {
                assert(new == old);
                self.lemma_predicted_stays(before[e], after[e], e, j, old.rule as int);
            }
            assert forall|i: int| 0 <= i < new.derivs.len() implies self.deriv_ok(
                tokens,
                after,
                e,
                new.key(),
                j,
                #[trigger] new.derivs[i],
                i == 0,
            ) by {
                if e == at && j == k {
                    if i < old.derivs.len() {
                        assert(new.derivs[i] == old.derivs[i]);
                        self.lemma_deriv_stays(tokens, before, after, e, old.key(), j, old.derivs[i], i == 0);
                    } else {
                        assert(new.derivs[i] == d);
                        self.lemma_deriv_stays(tokens, before, after, e, old.key(), j, d, false);
                    }
                } else {
                    assert(new == old);
                    self.lemma_deriv_stays(tokens, before, after, e, old.key(), j, old.derivs[i], i == 0);
                }
            }
        }
        assert forall|e: int, i: int, j: int|
            0 <= e < after.len() && 0 <= i < j < after[e].len() implies (#[trigger] after[e][i]).key()
            != (#[trigger] after[e][j]).key() by {
            assert(after[e][i].key() == before[e][i].key());
            assert(after[e][j].key() == before[e][j].key());
        }
    }
}

} // verus!
