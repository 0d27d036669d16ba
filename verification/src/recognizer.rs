//! The Earley recognizer: it fills the state sets, one per input position,
//! by prediction, scanning and completion.
use crate::chart::{
    derived, extends, holds, lemma_extends_twice, lemma_holds_stays, lemma_records_stay, lexemes,
    records, same_but, sets_view, Derivation, Item, Key,
};
use crate::grammar::Grammar;
use vstd::prelude::*;

verus! {

/// The position in `set` of the item with this rule, dot and start.
pub(crate) fn find_item(set: &Vec<Item>, rule: usize, dot: usize, start: usize) -> (r: Option<usize>)
    ensures
        match r {
            Some(k) => k < set.len() && set[k as int].key() == (Key {
                rule: rule as int,
                dot: dot as int,
                start: start as int,
            }),
            None => forall|k: int|
                0 <= k < set.len() ==> (#[trigger] set[k]).key() != (Key {
                    rule: rule as int,
                    dot: dot as int,
                    start: start as int,
                }),
        },
{
    let mut k: usize = 0;
    while k < set.len()
        invariant
            k <= set.len(),
            forall|j: int|
                0 <= j < k ==> (#[trigger] set[j]).key() != (Key {
                    rule: rule as int,
                    dot: dot as int,
                    start: start as int,
                }),
        decreases set.len() - k,
    {
        if set[k].rule == rule && set[k].dot == dot && set[k].start == start {
            return Some(k);
        }
        k += 1;
    }
    None
}

/// Puts an item into `set` unless one with the same key is there, and
/// gives `how` to the item as one more derivation. Returns the item's
/// position and whether it is new.
pub(crate) fn put(
    set: &mut Vec<Item>,
    rule: usize,
    dot: usize,
    start: usize,
    end: usize,
    how: Option<Derivation>,
) -> (r: (usize, bool))
    ensures
        r.1 ==> {
            &&& r.0 == old(set).len()
            &&& forall|k: int|
                0 <= k < old(set).len() ==> (#[trigger] old(set)[k]).key() != (Key {
                    rule: rule as int,
                    dot: dot as int,
                    start: start as int,
                })
            &&& final(set)@ == old(set)@.push(final(set)@.last())
            &&& final(set)@.last().key() == (Key {
                rule: rule as int,
                dot: dot as int,
                start: start as int,
            })
            &&& final(set)@.last().end == end
            &&& final(set)@.last().derivs@ == match how {
                Some(d) => seq![d],
                None => Seq::<Derivation>::empty(),
            }
        },
        !r.1 ==> {
            &&& r.0 < old(set).len()
            &&& old(set)[r.0 as int].key() == (Key {
                rule: rule as int,
                dot: dot as int,
                start: start as int,
            })
            &&& match how {
                Some(d) => derived(old(set)@, final(set)@, r.0 as int, d),
                None => final(set)@ == old(set)@,
            }
        },
{
    match find_item(set, rule, dot, start) {
        Some(k) => {
            if let Some(d) = how {
                set[k].derivs.push(d);
            }
            (k, false)
        },
        None => {
            let mut derivs: Vec<Derivation> = Vec::new();
            if let Some(d) = how {
                derivs.push(d);
            }
            let k = set.len();
            set.push(Item { rule, dot, start, end, derivs });
            proof {
                assert(set@ =~= old(set)@.push(set@.last()));
            }
            (k, true)
        },
    }
}

/// The sets while they are filled: the finished ones, the one whose items
/// are being processed, and the one that receives what is scanned.
pub(crate) struct Work {
    pub done: Vec<Vec<Item>>,
    pub cur: Vec<Item>,
    pub next: Vec<Item>,
}

impl Work {
    /// All sets in order.
    pub(crate) open spec fn sets(&self) -> Seq<Seq<Item>> {
        sets_view(self.done@).push(self.cur@).push(self.next@)
    }

    /// The input position of the set that is being processed.
    pub(crate) open spec fn at(&self) -> int {
        self.done.len() as int
    }

    /// What holds while the items of the current set before position `upto`
    /// have been processed.
    pub(crate) open spec fn inv(&self, g: &Grammar, tokens: Seq<Seq<char>>, upto: int) -> bool {
        &&& g.wf()
        &&& self.done.len() <= tokens.len() <= usize::MAX
        &&& self.done.len() == tokens.len() ==> self.next.len() == 0
        &&& 0 <= upto <= self.cur.len()
        &&& g.sound(tokens, self.sets())
        &&& g.closed(tokens, self.sets(), self.at(), upto)
    }

    /// Puts an item into the current set, or gives `how` to the item with
    /// the same key that is there.
    pub(crate) fn add_cur(
        &mut self,
        g: &Grammar,
        Ghost(tokens): Ghost<Seq<Seq<char>>>,
        Ghost(upto): Ghost<int>,
        rule: usize,
        dot: usize,
        start: usize,
        how: Option<Derivation>,
    )
        requires
            old(self).inv(g, tokens, upto),
            g.key_ok(Key { rule: rule as int, dot: dot as int, start: start as int }),
            start <= old(self).at(),
            how is None ==> dot == 0 && start == old(self).at() && g.predicted(
                old(self).cur@,
                old(self).at(),
                old(self).cur.len() as int,
                rule as int,
            ),
            how matches Some(d) ==> dot > 0 && g.deriv_ok(
                tokens,
                old(self).sets(),
                old(self).at(),
                Key { rule: rule as int, dot: dot as int, start: start as int },
                old(self).cur.len() as int,
                d,
                true,
            ),
        ensures
            final(self).inv(g, tokens, upto),
            final(self).done == old(self).done,
            final(self).next == old(self).next,
            extends(old(self).sets(), final(self).sets(), old(self).at()),
            holds(
                final(self).sets(),
                old(self).at(),
                Key { rule: rule as int, dot: dot as int, start: start as int },
            ),
            how matches Some(d) ==> records(
                final(self).sets(),
                old(self).at(),
                Key { rule: rule as int, dot: dot as int, start: start as int },
                d,
            ),
    {
        let ghost before = self.sets();
        let ghost key = Key { rule: rule as int, dot: dot as int, start: start as int };
        let at = self.done.len();
        let (k, fresh) = put(&mut self.cur, rule, dot, start, at, how);
        proof {
            let after = self.sets();
            assert(before[at as int] == old(self).cur@);
            assert(after[at as int] == self.cur@);
            assert(same_but(before, after, at as int)) by {
                assert forall|e: int| 0 <= e < before.len() && e != at implies #[trigger] after[e]
                    == before[e] by {}
            }
            assert forall|e: int, j: int|
                0 <= e < before.len() && 0 <= j < before[e].len() implies (#[trigger] before[e][j]).start
                <= e by {
                assert(g.item_ok(tokens, before, e, j));
            }
            if fresh {
                let it = self.cur@.last();
                g.lemma_item_added(tokens, before, after, at as int, it);
            } else {
                match how {
                    Some(d) => {
                        assert(g.item_ok(tokens, before, at as int, k as int));
                        g.lemma_deriv_added(tokens, before, after, at as int, k as int, d);
                    },
                    None => {
                        assert(after =~= before);
                    },
                }
                assert(after[at as int][k as int].key() == key);
            }
            g.lemma_closed_stays(tokens, before, after, at as int, upto);
        }
    }

    /// Puts an item into the next set, or gives `how` to the item with the
    /// same key that is there.
    pub(crate) fn add_next(
        &mut self,
        g: &Grammar,
        Ghost(tokens): Ghost<Seq<Seq<char>>>,
        Ghost(upto): Ghost<int>,
        rule: usize,
        dot: usize,
        start: usize,
        how: Derivation,
    )
        requires
            old(self).inv(g, tokens, upto),
            old(self).at() < tokens.len() <= usize::MAX,
            g.key_ok(Key { rule: rule as int, dot: dot as int, start: start as int }),
            start <= old(self).at(),
            dot > 0,
            g.deriv_ok(
                tokens,
                old(self).sets(),
                old(self).at() + 1,
                Key { rule: rule as int, dot: dot as int, start: start as int },
                old(self).next.len() as int,
                how,
                true,
            ),
        ensures
            final(self).inv(g, tokens, upto),
            final(self).done == old(self).done,
            final(self).cur == old(self).cur,
            extends(old(self).sets(), final(self).sets(), old(self).at()),
            holds(
                final(self).sets(),
                old(self).at() + 1,
                Key { rule: rule as int, dot: dot as int, start: start as int },
            ),
            records(
                final(self).sets(),
                old(self).at() + 1,
                Key { rule: rule as int, dot: dot as int, start: start as int },
                how,
            ),
    {
        let ghost before = self.sets();
        let ghost key = Key { rule: rule as int, dot: dot as int, start: start as int };
        let at = self.done.len();
        let (k, fresh) = put(&mut self.next, rule, dot, start, at + 1, Some(how));
        proof {
            let after = self.sets();
            assert(before[at + 1] == old(self).next@);
            assert(after[at + 1] == self.next@);
            assert(same_but(before, after, at + 1)) by {
                assert forall|e: int| 0 <= e < before.len() && e != at + 1 implies #[trigger] after[e]
                    == before[e] by {}
            }
            assert forall|e: int, j: int|
                0 <= e < before.len() && 0 <= j < before[e].len() implies (#[trigger] before[e][j]).start
                <= e by {
                assert(g.item_ok(tokens, before, e, j));
            }
            if fresh {
                let it = self.next@.last();
                g.lemma_item_added(tokens, before, after, at + 1, it);
            } else {
                assert(g.item_ok(tokens, before, at + 1, k as int));
                g.lemma_deriv_added(tokens, before, after, at + 1, k as int, how);
                assert(after[at + 1][k as int].key() == key);
            }
            assert(extends(before, after, at as int));
            g.lemma_closed_stays(tokens, before, after, at as int, upto);
        }
    }
}

impl Work {
    /// Predicts the nonterminal `x` for item `k` of the current set: every
    /// rule of `x` goes into the current set with its dot at the front.
    pub(crate) fn predict(
        &mut self,
        g: &Grammar,
        Ghost(tokens): Ghost<Seq<Seq<char>>>,
        Ghost(upto): Ghost<int>,
        x: usize,
    )
        requires
            old(self).inv(g, tokens, upto),
            upto < old(self).cur.len(),
            !g.is_complete(old(self).cur[upto].key()),
            g.next_symbol(old(self).cur[upto].key()) == x,
        ensures
            final(self).inv(g, tokens, upto),
            final(self).done == old(self).done,
            final(self).next == old(self).next,
            extends(old(self).sets(), final(self).sets(), old(self).at()),
            forall|r: int|
                0 <= r < g.rules.len() && (#[trigger] g.rules[r]).head == x ==> holds(
                    final(self).sets(),
                    old(self).at(),
                    Key { rule: r, dot: 0, start: old(self).at() },
                ),
    {
        let at = self.done.len();
        let mut r: usize = 0;
        while r < g.rules.len()
            invariant
                r <= g.rules.len(),
                at == self.done.len(),
                self.inv(g, tokens, upto),
                self.done == old(self).done,
                self.next == old(self).next,
                extends(old(self).sets(), self.sets(), at as int),
                upto < old(self).cur.len(),
                !g.is_complete(old(self).cur[upto].key()),
                g.next_symbol(old(self).cur[upto].key()) == x,
                forall|q: int|
                    0 <= q < r && (#[trigger] g.rules[q]).head == x ==> holds(
                        self.sets(),
                        at as int,
                        Key { rule: q, dot: 0, start: at as int },
                    ),
            decreases g.rules.len() - r,
        {
            if g.rules[r].head == x {
                let ghost before = self.sets();
                proof {
                    g.lemma_rule_named(r as int);
                    assert(before[at as int] == self.cur@);
                    assert(old(self).sets()[at as int] == old(self).cur@);
                    assert(self.cur[upto].key() == old(self).cur[upto].key());
                    assert(g.waits_for(self.cur@[upto].key(), r as int));
                }
                self.add_cur(g, Ghost(tokens), Ghost(upto), r, 0, at, None);
                proof {
                    lemma_extends_twice(old(self).sets(), before, self.sets(), at as int);
                    assert forall|q: int|
                        0 <= q < r && (#[trigger] g.rules[q]).head == x implies holds(
                        self.sets(),
                        at as int,
                        Key { rule: q, dot: 0, start: at as int },
                    ) by {
                        lemma_holds_stays(
                            before,
                            self.sets(),
                            at as int,
                            at as int,
                            Key { rule: q, dot: 0, start: at as int },
                        );
                    }
                }
            }
            r += 1;
        }
    }

    /// Completes with item `k` of the current set, which is complete and
    /// began before this set: every item of the set where it began that
    /// waits for its head goes, with the dot one step further, into the
    /// current set.
    pub(crate) fn complete(
        &mut self,
        g: &Grammar,
        Ghost(tokens): Ghost<Seq<Seq<char>>>,
        k: usize,
    )
        requires
            old(self).inv(g, tokens, k as int),
            k < old(self).cur.len(),
            g.is_complete(old(self).cur[k as int].key()),
            old(self).cur[k as int].start < old(self).at(),
        ensures
            final(self).inv(g, tokens, k as int),
            final(self).done == old(self).done,
            final(self).next == old(self).next,
            extends(old(self).sets(), final(self).sets(), old(self).at()),
            forall|p: int|
                0 <= p < old(self).done[old(self).cur[k as int].start as int].len() && g.waits_for(
                    (#[trigger] old(self).done[old(self).cur[k as int].start as int][p]).key(),
                    old(self).cur[k as int].rule as int,
                ) ==> records(
                    final(self).sets(),
                    old(self).at(),
                    old(self).done[old(self).cur[k as int].start as int][p].key().advanced(),
                    Derivation::Complete {
                        origin: old(self).cur[k as int].start,
                        pred: p as usize,
                        cause: k,
                    },
                ),
    {
        let at = self.done.len();
        let rule = self.cur[k].rule;
        let origin = self.cur[k].start;
        proof {
            assert(self.sets()[at as int][k as int] == self.cur[k as int]);
            assert(g.item_ok(tokens, self.sets(), at as int, k as int));
            g.lemma_rule_named(rule as int);
        }
        let head = g.rules[rule].head;
        let mut p: usize = 0;
        while p < self.done[origin].len()
            invariant
                at == self.done.len(),
                origin < at,
                k < self.cur.len(),
                rule < g.rules.len(),
                head == g.rules[rule as int].head,
                p <= self.done[origin as int].len(),
                self.inv(g, tokens, k as int),
                self.done == old(self).done,
                self.next == old(self).next,
                self.cur[k as int].key() == old(self).cur[k as int].key(),
                old(self).cur[k as int].key() == (Key {
                    rule: rule as int,
                    dot: g.rules[rule as int].body.len() as int,
                    start: origin as int,
                }),
                extends(old(self).sets(), self.sets(), at as int),
                forall|q: int|
                    0 <= q < p && g.waits_for(
                        (#[trigger] self.done[origin as int][q]).key(),
                        rule as int,
                    ) ==> records(
                        self.sets(),
                        at as int,
                        self.done[origin as int][q].key().advanced(),
                        Derivation::Complete { origin, pred: q as usize, cause: k },
                    ),
            decreases self.done[origin as int].len() - p,
        {
            let prule = self.done[origin][p].rule;
            let pdot = self.done[origin][p].dot;
            let pstart = self.done[origin][p].start;
            proof {
                assert(self.sets()[origin as int][p as int] == self.done[origin as int][p as int]);
                assert(self.sets()[at as int][k as int] == self.cur[k as int]);
                assert(g.item_ok(tokens, self.sets(), origin as int, p as int));
                g.lemma_rule_named(prule as int);
            }
            if pdot < g.rules[prule].body.len() && g.rules[prule].body[pdot] == head {
                let ghost before = self.sets();
                self.add_cur(
                    g,
                    Ghost(tokens),
                    Ghost(k as int),
                    prule,
                    pdot + 1,
                    pstart,
                    Some(Derivation::Complete { origin, pred: p, cause: k }),
                );
                proof {
                    lemma_extends_twice(old(self).sets(), before, self.sets(), at as int);
                    assert(self.sets()[at as int][k as int] == self.cur[k as int]);
                    assert(before[at as int][k as int].key() == self.sets()[at as int][k as int].key());
                    assert forall|q: int|
                        0 <= q < p && g.waits_for(
                            (#[trigger] self.done[origin as int][q]).key(),
                            rule as int,
                        ) implies records(
                        self.sets(),
                        at as int,
                        self.done[origin as int][q].key().advanced(),
                        Derivation::Complete { origin, pred: q as usize, cause: k },
                    ) by {
                        lemma_records_stay(
                            before,
                            self.sets(),
                            at as int,
                            at as int,
                            self.done[origin as int][q].key().advanced(),
                            Derivation::Complete { origin, pred: q as usize, cause: k },
                        );
                    }
                }
            }
            p += 1;
        }
    }

    /// Processes item `k` of the current set.
    pub(crate) fn step(&mut self, g: &Grammar, tokens: &Vec<String>, k: usize)
        requires
            old(self).inv(g, lexemes(tokens@), k as int),
            k < old(self).cur.len(),
        ensures
            final(self).inv(g, lexemes(tokens@), k + 1),
            final(self).done == old(self).done,
            extends(old(self).sets(), final(self).sets(), old(self).at()),
    {
        let ghost toks = lexemes(tokens@);
        let ghost first = self.sets();
        let at = self.done.len();
        let rule = self.cur[k].rule;
        let dot = self.cur[k].dot;
        let start = self.cur[k].start;
        let ghost it = self.cur[k as int].key();
        proof {
            assert(first[at as int][k as int] == self.cur[k as int]);
            assert(g.item_ok(toks, first, at as int, k as int));
            g.lemma_rule_named(rule as int);
        }
        if dot < g.rules[rule].body.len() {
            let x = g.rules[rule].body[dot];
            if g.symbols[x].is_terminal() {
                if at < tokens.len() && g.symbols[x].matches(&tokens[at]) {
                    self.add_next(
                        g,
                        Ghost(toks),
                        Ghost(k as int),
                        rule,
                        dot + 1,
                        start,
                        Derivation::Scan { pred: k },
                    );
                }
            } else {
                self.predict(g, Ghost(toks), Ghost(k as int), x);
                if g.is_nullable(x) {
                    let ghost before = self.sets();
                    proof {
                        assert(before[at as int][k as int].key() == first[at as int][k as int].key());
                    }
                    self.add_cur(
                        g,
                        Ghost(toks),
                        Ghost(k as int),
                        rule,
                        dot + 1,
                        start,
                        Some(Derivation::Nullable { pred: k }),
                    );
                    proof {
                        lemma_extends_twice(first, before, self.sets(), at as int);
                        assert forall|r: int|
                            0 <= r < g.rules.len() && (#[trigger] g.rules[r]).head == x implies holds(
                            self.sets(),
                            at as int,
                            Key { rule: r, dot: 0, start: at as int },
                        ) by {
                            lemma_holds_stays(
                                before,
                                self.sets(),
                                at as int,
                                at as int,
                                Key { rule: r, dot: 0, start: at as int },
                            );
                        }
                    }
                }
            }
        } else if start < at {
            self.complete(g, Ghost(toks), k);
        }
        proof {
            let last = self.sets();
            assert(last[at as int][k as int].key() == it);
            assert(last[at as int][k as int].end == at);
            assert(g.processed(toks, last, at as int, k as int)) by {
                if g.is_complete(it) && it.start < at {
                    assert(last[it.start] == first[it.start]);
                    assert(first[it.start] == old(self).done[it.start]@);
                }
            }
        }
    }
}

impl Grammar {
    /// Sound sets stay sound with one more, empty set behind them.
    pub(crate) proof fn lemma_sound_more(&self, tokens: Seq<Seq<char>>, sets: Seq<Seq<Item>>)
        requires
            self.sound(tokens, sets),
        ensures
            self.sound(tokens, sets.push(Seq::empty())),
    {
        let more = sets.push(Seq::empty());
        assert forall|e: int, k: int| 0 <= e < more.len() && 0 <= k < more[e].len() implies self.item_ok(
            tokens,
            more,
            e,
            k,
        ) && (#[trigger] more[e][k]).end == e by {
            assert(more[e] == sets[e]);
            assert(self.item_ok(tokens, sets, e, k));
            let it = sets[e][k];
            assert forall|d: int| 0 <= d < it.derivs.len() implies self.deriv_ok(
                tokens,
                more,
                e,
                it.key(),
                k,
                #[trigger] it.derivs[d],
                d == 0,
            ) by {
                assert(self.deriv_ok(tokens, sets, e, it.key(), k, it.derivs[d], d == 0));
                match it.derivs[d] {
                    Derivation::Scan { pred } => {
                        assert(more[e - 1] == sets[e - 1]);
                    },
                    Derivation::Nullable { pred } => {},
                    Derivation::Complete { origin, pred, cause } => {
                        assert(more[origin as int] == sets[origin as int]);
                    },
                }
            }
        }
        assert forall|e: int, k: int, j: int|
            0 <= e < more.len() && 0 <= k < j < more[e].len() implies (#[trigger] more[e][k]).key()
            != (#[trigger] more[e][j]).key() by {
            assert(more[e] == sets[e]);
        }
    }

    /// Sound sets stay sound without their last set.
    pub(crate) proof fn lemma_sound_less(&self, tokens: Seq<Seq<char>>, sets: Seq<Seq<Item>>)
        requires
            self.sound(tokens, sets),
            sets.len() > 0,
        ensures
            self.sound(tokens, sets.drop_last()),
    {
        let less = sets.drop_last();
        assert forall|e: int, k: int| 0 <= e < less.len() && 0 <= k < less[e].len() implies self.item_ok(
            tokens,
            less,
            e,
            k,
        ) && (#[trigger] less[e][k]).end == e by {
            assert(less[e] == sets[e]);
            assert(self.item_ok(tokens, sets, e, k));
            let it = sets[e][k];
            assert forall|d: int| 0 <= d < it.derivs.len() implies self.deriv_ok(
                tokens,
                less,
                e,
                it.key(),
                k,
                #[trigger] it.derivs[d],
                d == 0,
            ) by {
                assert(self.deriv_ok(tokens, sets, e, it.key(), k, it.derivs[d], d == 0));
                match it.derivs[d] {
                    Derivation::Scan { pred } => {
                        assert(less[e - 1] == sets[e - 1]);
                    },
                    Derivation::Nullable { pred } => {},
                    Derivation::Complete { origin, pred, cause } => {
                        assert(less[origin as int] == sets[origin as int]);
                    },
                }
            }
        }
        assert forall|e: int, k: int, j: int|
            0 <= e < less.len() && 0 <= k < j < less[e].len() implies (#[trigger] less[e][k]).key()
            != (#[trigger] less[e][j]).key() by {
            assert(less[e] == sets[e]);
        }
    }

    /// A processed item is processed in any sets that agree with these on
    /// the sets up to the one behind the item's.
    pub(crate) proof fn lemma_processed_same(
        &self,
        tokens: Seq<Seq<char>>,
        before: Seq<Seq<Item>>,
        after: Seq<Seq<Item>>,
        e: int,
        k: int,
    )
        requires
            0 <= e < before.len(),
            0 <= k < before[e].len(),
            before[e][k].start <= e,
            self.processed(tokens, before, e, k),
            e < after.len(),
            forall|i: int| 0 <= i <= e ==> #[trigger] after[i] == before[i],
            e < tokens.len() ==> e + 1 < before.len() && e + 1 < after.len() && after[e + 1]
                == before[e + 1],
        ensures
            self.processed(tokens, after, e, k),
    {
        let it = before[e][k].key();
        assert(after[e] == before[e]);
        if !self.is_complete(it) {
            let x = self.next_symbol(it);
            if self.symbols[x] is Terminal {
                if e < tokens.len() && self.symbols[x].accepts(tokens[e]) {
                    let j = choose|j: int|
                        0 <= j < before[e + 1].len() && (#[trigger] before[e + 1][j]).key()
                            == it.advanced();
                    assert(after[e + 1][j].key() == it.advanced());
                }
            } else {
                assert forall|r: int|
                    0 <= r < self.rules.len() && (#[trigger] self.rules[r]).head == x implies holds(
                    after,
                    e,
                    Key { rule: r, dot: 0, start: e },
                ) by {
                    let key = Key { rule: r, dot: 0, start: e };
                    let j = choose|j: int| 0 <= j < before[e].len() && (#[trigger] before[e][j]).key() == key;
                    assert(after[e][j].key() == key);
                }
                if self.ranks()[x] > 0 {
                    let j = choose|j: int|
                        0 <= j < before[e].len() && (#[trigger] before[e][j]).key() == it.advanced();
                    assert(after[e][j].key() == it.advanced());
                }
            }
        } else {
            if it.start < e {
                assert(after[it.start] == before[it.start]);
                assert forall|p: int|
                    0 <= p < after[it.start].len() && self.waits_for(
                        (#[trigger] after[it.start][p]).key(),
                        it.rule,
                    ) implies holds(after, e, after[it.start][p].key().advanced()) by {
                    let key = before[it.start][p].key().advanced();
                    let j = choose|j: int| 0 <= j < before[e].len() && (#[trigger] before[e][j]).key() == key;
                    assert(after[e][j].key() == key);
                }
            }
        }
    }
}

impl Work {
    /// Processes the current set until nothing new follows from its items.
    pub(crate) fn close(&mut self, g: &Grammar, tokens: &Vec<String>)
        requires
            old(self).inv(g, lexemes(tokens@), 0),
        ensures
            final(self).inv(g, lexemes(tokens@), final(self).cur.len() as int),
            final(self).done == old(self).done,
            old(self).cur.len() <= final(self).cur.len(),
            old(self).cur.len() == 0 ==> final(self).cur.len() == 0,
    {
        let ghost toks = lexemes(tokens@);
        let ghost at = self.done.len() as int;
        let mut k: usize = 0;
        proof {
            g.lemma_room(toks, self.sets(), at);
        }
        while k < self.cur.len()
            invariant
                self.inv(g, toks, k as int),
                toks == lexemes(tokens@),
                self.done == old(self).done,
                at == self.done.len(),
                self.cur.len() <= g.room(at),
                old(self).cur.len() <= self.cur.len(),
                old(self).cur.len() == 0 ==> self.cur.len() == 0,
            decreases g.room(at) - k,
        {
            let ghost before = self.sets();
            assert(before[at] == self.cur@);
            self.step(g, tokens, k);
            assert(self.sets()[at] == self.cur@);
            k += 1;
            proof {
                g.lemma_room(toks, self.sets(), at);
            }
        }
    }

    /// Makes the next set the current one.
    pub(crate) fn advance(self, g: &Grammar, Ghost(tokens): Ghost<Seq<Seq<char>>>) -> (r: Work)
        requires
            self.inv(g, tokens, self.cur.len() as int),
            self.done.len() < tokens.len(),
        ensures
            r.inv(g, tokens, 0),
            r.done@ == self.done@.push(self.cur),
            r.cur == self.next,
    {
        let ghost before = self.sets();
        let Work { done, cur, next } = self;
        let mut done = done;
        done.push(cur);
        let r = Work { done, cur: next, next: Vec::new() };
        proof {
            let after = r.sets();
            let at = self.done.len() as int;
            assert(after =~= before.push(Seq::empty()));
            g.lemma_sound_more(tokens, before);
            assert forall|e: int, k: int| 0 <= e < before.len() && 0 <= k < before[e].len() implies (
            #[trigger] before[e][k]).start <= e by {
                assert(g.item_ok(tokens, before, e, k));
            }
            assert forall|e: int, k: int| 0 <= e < at + 1 && 0 <= k < after[e].len() implies g.processed(
                tokens,
                after,
                e,
                k,
            ) && (#[trigger] after[e][k]).end == e by {
                assert(after[e] == before[e]);
                assert(before[e][k].end == e);
                g.lemma_processed_same(tokens, before, after, e, k);
            }
            assert forall|r: int|
                0 <= r < g.rules.len() && (#[trigger] g.rules[r]).head == g.start implies holds(
                after,
                0,
                Key { rule: r, dot: 0, start: 0 },
            ) by {
                let key = Key { rule: r, dot: 0, start: 0 };
                let j = choose|j: int| 0 <= j < before[0].len() && (#[trigger] before[0][j]).key() == key;
                assert(after[0][j].key() == key);
            }
        }
        r
    }
}

/// Whether `stuck` names the first position whose token nothing could
/// scan: the set behind it is the first empty one among the sets up to
/// `upto`; or whether it names none, and those sets all hold items.
pub open spec fn stuck_at(sets: Seq<Seq<Item>>, upto: int, stuck: Option<usize>) -> bool {
    match stuck {
        Some(i) => {
            &&& i < upto
            &&& sets[i + 1].len() == 0
            &&& forall|j: int| 0 <= j <= i ==> (#[trigger] sets[j]).len() > 0
        },
        None => forall|j: int| 0 <= j <= upto ==> (#[trigger] sets[j]).len() > 0,
    }
}

/// The first state set before processing: every rule of the start symbol
/// with its dot at the front.
pub(crate) fn seed(g: &Grammar) -> (r: Vec<Item>)
    ensures
        r.len() > 0,
        forall|k: int|
            0 <= k < r.len() ==> {
                &&& (#[trigger] r[k]).rule < g.rules.len()
                &&& g.rules[r[k].rule as int].head == g.start
                &&& r[k].dot == 0
                &&& r[k].start == 0
                &&& r[k].end == 0
                &&& r[k].derivs.len() == 0
            },
        forall|k: int, j: int| 0 <= k < j < r.len() ==> (#[trigger] r[k]).rule < (#[trigger] r[j]).rule,
        forall|q: int|
            0 <= q < g.rules.len() && (#[trigger] g.rules[q]).head == g.start ==> exists|k: int|
                0 <= k < r.len() && (#[trigger] r[k]).rule == q,
{
    proof {
        use_type_invariant(g);
    }
    let mut set: Vec<Item> = Vec::new();
    let mut q: usize = 0;
    while q < g.rules.len()
        invariant
            q <= g.rules.len(),
            forall|k: int|
                0 <= k < set.len() ==> {
                    &&& (#[trigger] set[k]).rule < q
                    &&& g.rules[set[k].rule as int].head == g.start
                    &&& set[k].dot == 0
                    &&& set[k].start == 0
                    &&& set[k].end == 0
                    &&& set[k].derivs.len() == 0
                },
            forall|k: int, j: int|
                0 <= k < j < set.len() ==> (#[trigger] set[k]).rule < (#[trigger] set[j]).rule,
            forall|p: int|
                0 <= p < q && (#[trigger] g.rules[p]).head == g.start ==> exists|k: int|
                    0 <= k < set.len() && (#[trigger] set[k]).rule == p,
        decreases g.rules.len() - q,
    {
        if g.rules[q].head == g.start {
            let ghost before = set@;
            set.push(Item { rule: q, dot: 0, start: 0, end: 0, derivs: Vec::new() });
            proof {
                assert forall|p: int|
                    0 <= p < q + 1 && (#[trigger] g.rules[p]).head == g.start implies exists|k: int|
                    0 <= k < set.len() && (#[trigger] set[k]).rule == p by {
                    if p < q {
                        let k = choose|k: int| 0 <= k < before.len() && (#[trigger] before[k]).rule == p;
                        assert(set[k].rule == p);
                    } else {
                        assert(set[set.len() - 1].rule == p);
                    }
                }
            }
        }
        q += 1;
    }
    proof {
        let p = choose|p: int| 0 <= p < g.rules.len() && (#[trigger] g.rules[p]).head == g.start;
        assert(g.rules[p].head == g.start);
    }
    set
}

/// Fills the state sets for `tokens`: one set per input position, each
/// closed under prediction, scanning and completion.
pub(crate) fn fill(g: &Grammar, tokens: &Vec<String>) -> (r: (Vec<Vec<Item>>, Option<usize>))
    ensures
        r.0.len() == tokens.len() + 1,
        g.sound(lexemes(tokens@), sets_view(r.0@)),
        g.closed(
            lexemes(tokens@),
            sets_view(r.0@),
            tokens.len() as int,
            r.0[tokens.len() as int].len() as int,
        ),
        stuck_at(sets_view(r.0@), tokens.len() as int, r.1),
{
    proof {
        use_type_invariant(g);
    }
    let ghost toks = lexemes(tokens@);
    let mut w = Work { done: Vec::new(), cur: seed(g), next: Vec::new() };
    let mut stuck: Option<usize> = None;
    proof {
        let sets = w.sets();
        assert(sets[0] == w.cur@);
        assert(sets[1] == w.next@);
        assert forall|e: int, k: int| 0 <= e < sets.len() && 0 <= k < sets[e].len() implies g.item_ok(
            toks,
            sets,
            e,
            k,
        ) && (#[trigger] sets[e][k]).end == e by {
            g.lemma_rule_named(sets[e][k].rule as int);
        }
        assert forall|e: int, k: int, j: int|
            0 <= e < sets.len() && 0 <= k < j < sets[e].len() implies (#[trigger] sets[e][k]).key()
            != (#[trigger] sets[e][j]).key() by {
            assert(w.cur[k].rule < w.cur[j].rule);
        }
        assert forall|q: int|
            0 <= q < g.rules.len() && (#[trigger] g.rules[q]).head == g.start implies holds(
            sets,
            0,
            Key { rule: q, dot: 0, start: 0 },
        ) by {
            let k = choose|k: int| 0 <= k < w.cur.len() && (#[trigger] w.cur[k]).rule == q;
            assert(sets[0][k].key() == Key { rule: q, dot: 0, start: 0 });
        }
    }
    assert(toks.len() == tokens.len());
    w.close(g, tokens);
    assert(w.sets()[0] == w.cur@);
    while w.done.len() < tokens.len()
        invariant
            toks == lexemes(tokens@),
            w.inv(g, toks, w.cur.len() as int),
            stuck_at(w.sets(), w.done.len() as int, stuck),
        decreases tokens.len() - w.done.len(),
    {
        let ghost before = w.sets();
        let ghost at = w.done.len() as int;
        let ghost start = w;
        assert(before[at + 1] == w.next@);
        assert(before[at] == w.cur@);
        if stuck.is_none() && w.next.len() == 0 {
            stuck = Some(w.done.len());
        }
        w = w.advance(g, Ghost(toks));
        let ghost middle = w.sets();
        assert(middle[at + 1] == w.cur@);
        w.close(g, tokens);
        proof {
            let after = w.sets();
            assert(after[at + 1] == w.cur@);
            assert forall|j: int| 0 <= j <= at implies #[trigger] after[j] == before[j] by {
                assert(after[j] == w.done[j]@);
                if j < at {
                    assert(before[j] == start.done[j]@);
                }
            }
        }
    }
    let ghost last = w.sets();
    let Work { done, cur, next } = w;
    let mut sets = done;
    sets.push(cur);
    proof {
        let n = tokens.len() as int;
        let fin = sets_view(sets@);
        assert(fin =~= last.drop_last());
        g.lemma_sound_less(toks, last);
        assert forall|e: int, k: int| 0 <= e < last.len() && 0 <= k < last[e].len() implies (
        #[trigger] last[e][k]).start <= e by {
            assert(g.item_ok(toks, last, e, k));
        }
        assert forall|e: int, k: int| 0 <= e <= n && 0 <= k < fin[e].len() implies g.processed(
            toks,
            fin,
            e,
            k,
        ) && (#[trigger] fin[e][k]).end == e by {
            assert(fin[e] == last[e]);
            assert(g.item_ok(toks, last, e, k));
            g.lemma_processed_same(toks, last, fin, e, k);
        }
        assert forall|q: int|
            0 <= q < g.rules.len() && (#[trigger] g.rules[q]).head == g.start implies holds(
            fin,
            0,
            Key { rule: q, dot: 0, start: 0 },
        ) by {
            let key = Key { rule: q, dot: 0, start: 0 };
            let j = choose|j: int| 0 <= j < last[0].len() && (#[trigger] last[0][j]).key() == key;
            assert(fin[0][j].key() == key);
        }
        assert(stuck_at(fin, n, stuck)) by {
            assert forall|j: int| 0 <= j <= n implies #[trigger] fin[j] == last[j] by {}
        }
    }
    (sets, stuck)
}

} // verus!
