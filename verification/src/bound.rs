//! A state set cannot grow forever: its items have distinct keys, and there
//! are only so many keys.
use crate::chart::{Item, Key};
use crate::grammar::{Grammar, Rule};
use vstd::arithmetic::div_mod::lemma_fundamental_div_mod_converse;
use vstd::prelude::*;
use vstd::set_lib::{lemma_int_range, lemma_len_subset, set_int_range};

verus! {

/// The length of the longest rule body.
pub open spec fn max_body(rules: Seq<Rule>) -> nat
    decreases rules.len(),
{
    if rules.len() == 0 {
        0
    } else {
        let rest = max_body(rules.drop_last());
        let last = rules.last().body.len() as nat;
        if rest >= last {
            rest
        } else {
            last
        }
    }
}

/// No rule body is longer than the longest.
pub proof fn lemma_max_body(rules: Seq<Rule>, r: int)
    requires
        0 <= r < rules.len(),
    ensures
        rules[r].body.len() <= max_body(rules),
    decreases rules.len(),
{
    if r < rules.len() - 1 {
        lemma_max_body(rules.drop_last(), r);
    }
}

/// A number for a key, different for different keys with dots up to `m`
/// and starts up to `n`.
pub open spec fn code(key: Key, m: int, n: int) -> int {
    (key.rule * (m + 1) + key.dot) * (n + 1) + key.start
}

/// How many keys there are with rules below `rules`, dots up to `m` and
/// starts up to `n`.
pub open spec fn key_count(rules: int, m: int, n: int) -> int {
    rules * (m + 1) * (n + 1)
}

/// The code of a key within the limits is below the number of such keys.
pub proof fn lemma_code_range(key: Key, rules: int, m: int, n: int)
    requires
        0 <= key.rule < rules,
        0 <= key.dot <= m,
        0 <= key.start <= n,
    ensures
        0 <= code(key, m, n) < key_count(rules, m, n),
{
    let a = key.rule * (m + 1) + key.dot;
    assert(0 <= a < rules * (m + 1)) by (nonlinear_arith)
        requires
            a == key.rule * (m + 1) + key.dot,
            0 <= key.rule < rules,
            0 <= key.dot <= m,
    ;
    assert(0 <= a * (n + 1) + key.start < rules * (m + 1) * (n + 1)) by (nonlinear_arith)
        requires
            0 <= a < rules * (m + 1),
            0 <= key.start <= n,
    ;
}

/// Keys within the limits that have one code are one key.
pub proof fn lemma_code_one(first: Key, second: Key, m: int, n: int)
    requires
        0 <= first.rule,
        0 <= first.dot <= m,
        0 <= first.start <= n,
        0 <= second.rule,
        0 <= second.dot <= m,
        0 <= second.start <= n,
        code(first, m, n) == code(second, m, n),
    ensures
        first == second,
{
    let a = first.rule * (m + 1) + first.dot;
    let b = second.rule * (m + 1) + second.dot;
    lemma_fundamental_div_mod_converse(code(first, m, n), n + 1, a, first.start);
    lemma_fundamental_div_mod_converse(code(second, m, n), n + 1, b, second.start);
    lemma_fundamental_div_mod_converse(a, m + 1, first.rule, first.dot);
    lemma_fundamental_div_mod_converse(b, m + 1, second.rule, second.dot);
}

impl Grammar {
    /// How many items a state set at position `e` can hold.
    pub(crate) open spec fn room(&self, e: int) -> int {
        key_count(self.rules.len() as int, max_body(self.rules@) as int, e)
    }

    /// A sound state set holds no more items than there are keys.
    pub(crate) proof fn lemma_room(&self, tokens: Seq<Seq<char>>, sets: Seq<Seq<Item>>, e: int)
        requires
            self.wf(),
            self.sound(tokens, sets),
            0 <= e < sets.len(),
        ensures
            sets[e].len() <= self.room(e),
            0 <= self.room(e),
    {
        let m = max_body(self.rules@) as int;
        let rules = self.rules.len() as int;
        let set = sets[e];
        let codes = Seq::new(set.len(), |k: int| code(set[k].key(), m, e));
        assert forall|k: int| 0 <= k < set.len() implies 0 <= (#[trigger] set[k]).key().rule < rules
            && 0 <= set[k].key().dot <= m && 0 <= set[k].key().start <= e by {
            assert(self.item_ok(tokens, sets, e, k));
            lemma_max_body(self.rules@, set[k].rule as int);
        }
        assert forall|i: int, j: int| 0 <= i < codes.len() && 0 <= j < codes.len() && i != j implies codes[i] != codes[j] by {
            if codes[i] == codes[j] {
                lemma_code_one(set[i].key(), set[j].key(), m, e);
                if i < j {
                    assert(sets[e][i].key() != sets[e][j].key());
                } else {
                    assert(sets[e][j].key() != sets[e][i].key());
                }
            }
        }
        assert(codes.no_duplicates());
        codes.unique_seq_to_set();
        assert(0 <= self.room(e)) by (nonlinear_arith)
            requires
                self.room(e) == rules * (m + 1) * (e + 1),
                0 <= rules,
                0 <= m,
                0 <= e,
        ;
        lemma_int_range(0, self.room(e));
        assert(codes.to_set().subset_of(set_int_range(0, self.room(e)))) by {
            assert forall|c: int| codes.to_set().contains(c) implies set_int_range(
                0,
                self.room(e),
            ).contains(c) by {
                let k = choose|k: int| 0 <= k < codes.len() && codes[k] == c;
                lemma_code_range(set[k].key(), rules, m, e);
            }
        }
        lemma_len_subset(codes.to_set(), set_int_range(0, self.room(e)));
    }
}

} // verus!
