//! Which nonterminals derive the empty string, found as a least fixed point
//! over the rules, round by round.
use crate::grammar::{rule_ok, tables_ok, Rule, Symbol};
use vstd::prelude::*;

verus! {

/// Whether every symbol of `body` has a rank between 1 and `bound`.
pub open spec fn body_within(rank: Seq<nat>, body: Seq<usize>, bound: nat) -> bool {
    forall|k: int| 0 <= k < body.len() ==> 0 < rank[(#[trigger] body[k]) as int] <= bound
}

/// Whether a ranked symbol `x` has a chosen rule whose head it is and whose
/// body symbols all have smaller ranks, and this is the first such rule of
/// the symbol; for a symbol without a rank the first rule stands in.
pub open spec fn chosen_ok(rules: Seq<Rule>, rank: Seq<nat>, chosen: Seq<usize>, x: int) -> bool {
    if rank[x] > 0 {
        &&& chosen[x] < rules.len()
        &&& rules[chosen[x] as int].head == x
        &&& body_within(rank, rules[chosen[x] as int].body@, (rank[x] - 1) as nat)
        &&& forall|q: int|
            0 <= q < chosen[x] && (#[trigger] rules[q]).head == x ==> !body_within(
                rank,
                rules[q].body@,
                (rank[x] - 1) as nat,
            )
    } else {
        chosen[x] == 0
    }
}

/// Whether rule `r` obeys the bound `bound`: if its body symbols have ranks
/// up to `bound`, its head has a rank up to `bound + 1`.
pub open spec fn closed_below(rules: Seq<Rule>, rank: Seq<nat>, r: int, bound: nat) -> bool {
    body_within(rank, rules[r].body@, bound) ==> 0 < rank[rules[r].head as int] <= bound + 1
}

/// Whether `rank` gives every symbol the height of its shortest derivation
/// of the empty string (zero where there is none), `nullable` says where
/// the rank is positive, and `chosen` names a rule that attains it.
pub open spec fn ranks_ok(
    rules: Seq<Rule>,
    nullable: Seq<bool>,
    chosen: Seq<usize>,
    rank: Seq<nat>,
) -> bool {
    &&& nullable.len() == rank.len()
    &&& chosen.len() == rank.len()
    &&& forall|x: int| 0 <= x < rank.len() ==> #[trigger] nullable[x] == (rank[x] > 0)
    &&& forall|x: int| 0 <= x < rank.len() ==> #[trigger] chosen_ok(rules, rank, chosen, x)
    &&& forall|r: int, bound: nat|
        0 <= r < rules.len() ==> #[trigger] closed_below(rules, rank, r, bound)
}

/// How many entries are `false`.
pub open spec fn count_false(flags: Seq<bool>) -> nat
    decreases flags.len(),
{
    if flags.len() == 0 {
        0
    } else {
        count_false(flags.drop_last()) + if flags.last() {
            0nat
        } else {
            1nat
        }
    }
}

proof fn lemma_count_set(flags: Seq<bool>, at: int)
    requires
        0 <= at < flags.len(),
        !flags[at],
    ensures
        count_false(flags.update(at, true)) + 1 == count_false(flags),
    decreases flags.len(),
{
    let after = flags.update(at, true);
    if at == flags.len() - 1 {
        assert(after.drop_last() =~= flags.drop_last());
    } else {
        assert(after.drop_last() =~= flags.drop_last().update(at, true));
        lemma_count_set(flags.drop_last(), at);
    }
}

fn copy_flags(flags: &Vec<bool>) -> (r: Vec<bool>)
    ensures
        r@ == flags@,
{
    let mut out: Vec<bool> = Vec::new();
    let mut i: usize = 0;
    while i < flags.len()
        invariant
            i <= flags.len(),
            out@ == flags@.subrange(0, i as int),
        decreases flags.len() - i,
    {
        out.push(flags[i]);
        assert(out@ =~= flags@.subrange(0, i + 1));
        i += 1;
    }
    assert(out@ =~= flags@);
    out
}

fn all_set(flags: &Vec<bool>, body: &Vec<usize>) -> (r: bool)
    requires
        forall|k: int| 0 <= k < body.len() ==> (#[trigger] body[k]) < flags.len(),
    ensures
        r == forall|k: int| 0 <= k < body.len() ==> flags[(#[trigger] body[k]) as int],
{
    let mut k: usize = 0;
    while k < body.len()
        invariant
            k <= body.len(),
            forall|j: int| 0 <= j < body.len() ==> (#[trigger] body[j]) < flags.len(),
            forall|j: int| 0 <= j < k ==> flags[(#[trigger] body[j]) as int],
        decreases body.len() - k,
    {
        if !flags[body[k]] {
            return false;
        }
        k += 1;
    }
    true
}

/// What holds between two rounds: ranks stay below `round`, every ranked
/// symbol has its chosen rule, and every rule obeys every bound below
/// `round - 1`.
pub open spec fn between_rounds(
    rules: Seq<Rule>,
    nullable: Seq<bool>,
    chosen: Seq<usize>,
    rank: Seq<nat>,
    round: nat,
) -> bool {
    &&& nullable.len() == rank.len()
    &&& chosen.len() == rank.len()
    &&& round >= 1
    &&& forall|x: int| 0 <= x < rank.len() ==> #[trigger] nullable[x] == (rank[x] > 0)
    &&& forall|x: int| 0 <= x < rank.len() ==> (#[trigger] rank[x]) < round
    &&& forall|x: int| 0 <= x < rank.len() ==> #[trigger] chosen_ok(rules, rank, chosen, x)
    &&& forall|r: int, bound: nat|
        0 <= r < rules.len() && bound + 1 < round ==> #[trigger] closed_below(
            rules,
            rank,
            r,
            bound,
        )
}

/// What holds within round `round` when the rules before `upto` have been
/// looked at: `old` marks the symbols ranked in earlier rounds, `next`
/// those ranked so far.
pub open spec fn within_round(
    rules: Seq<Rule>,
    old: Seq<bool>,
    next: Seq<bool>,
    chosen: Seq<usize>,
    rank: Seq<nat>,
    round: nat,
    upto: int,
) -> bool {
    &&& old.len() == rank.len()
    &&& next.len() == rank.len()
    &&& chosen.len() == rank.len()
    &&& round >= 1
    &&& forall|x: int| 0 <= x < rank.len() ==> #[trigger] old[x] == (0 < rank[x] < round)
    &&& forall|x: int| 0 <= x < rank.len() ==> #[trigger] next[x] == (rank[x] > 0)
    &&& forall|x: int| 0 <= x < rank.len() ==> (#[trigger] rank[x]) <= round
    &&& forall|x: int| 0 <= x < rank.len() ==> #[trigger] chosen_ok(rules, rank, chosen, x)
    &&& forall|r: int, bound: nat|
        0 <= r < rules.len() && bound + 1 < round ==> #[trigger] closed_below(
            rules,
            rank,
            r,
            bound,
        )
    &&& forall|r: int| 0 <= r < upto ==> #[trigger] closed_below(rules, rank, r, (round - 1) as nat)
}

proof fn lemma_mark(
    symbols: Seq<Symbol>,
    rules: Seq<Rule>,
    old: Seq<bool>,
    next: Seq<bool>,
    chosen: Seq<usize>,
    rank: Seq<nat>,
    round: nat,
    at: usize,
)
    requires
        tables_ok(symbols, rules),
        rank.len() == symbols.len(),
        within_round(rules, old, next, chosen, rank, round, at as int),
        0 <= at < rules.len(),
        !next[rules[at as int].head as int],
        forall|k: int|
            0 <= k < rules[at as int].body.len() ==> old[(
            #[trigger] rules[at as int].body[k]) as int],
    ensures
        within_round(
            rules,
            old,
            next.update(rules[at as int].head as int, true),
            chosen.update(rules[at as int].head as int, at),
            rank.update(rules[at as int].head as int, round),
            round,
            at + 1,
        ),
{
    let j = at as int;
    let head = rules[j].head as int;
    let next2 = next.update(head, true);
    let chosen2 = chosen.update(head, at);
    let rank2 = rank.update(head, round);
    assert(rule_ok(symbols, rules[j]));
    assert(rank[head] == 0);
    assert forall|r: int, bound: nat|
        0 <= r < rules.len() && bound < round && body_within(rank2, rules[r].body@, bound)
        implies body_within(rank, rules[r].body@, bound) by {
        assert forall|k: int| 0 <= k < rules[r].body.len() implies 0 < rank[(
        #[trigger] rules[r].body[k]) as int] <= bound by {
            assert(0 < rank2[rules[r].body[k] as int] <= bound);
        }
    }
    assert forall|x: int| 0 <= x < rank.len() implies #[trigger] chosen_ok(
        rules,
        rank2,
        chosen2,
        x,
    ) by {
        if x == head {
            assert forall|k: int| 0 <= k < rules[j].body.len() implies 0 < rank2[(
            #[trigger] rules[j].body[k]) as int] <= (round - 1) as nat by {
                assert(old[rules[j].body[k] as int]);
            }
            assert forall|q: int| 0 <= q < j && (#[trigger] rules[q]).head == x implies !body_within(
                rank2,
                rules[q].body@,
                (round - 1) as nat,
            ) by {
                assert(closed_below(rules, rank, q, (round - 1) as nat));
            }
        } else {
            assert(chosen_ok(rules, rank, chosen, x));
            if rank[x] > 0 {
                assert(rule_ok(symbols, rules[chosen[x] as int]));
                let body = rules[chosen[x] as int].body@;
                assert forall|k: int| 0 <= k < body.len() implies 0 < rank2[(
                #[trigger] body[k]) as int] <= (rank[x] - 1) as nat by {
                    assert(0 < rank[body[k] as int]);
                }
                assert forall|q: int|
                    0 <= q < chosen[x] && (#[trigger] rules[q]).head == x implies !body_within(
                    rank2,
                    rules[q].body@,
                    (rank[x] - 1) as nat,
                ) by {
                    assert(rank[x] <= round);
                }
            }
        }
    }
    assert forall|r: int, bound: nat|
        0 <= r < rules.len() && bound + 1 < round implies #[trigger] closed_below(
        rules,
        rank2,
        r,
        bound,
    ) by {
        assert(closed_below(rules, rank, r, bound));
        assert(rule_ok(symbols, rules[r]));
    }
    assert forall|r: int| 0 <= r < j + 1 implies #[trigger] closed_below(
        rules,
        rank2,
        r,
        (round - 1) as nat,
    ) by {
        assert(rule_ok(symbols, rules[r]));
        if r < j {
            assert(closed_below(rules, rank, r, (round - 1) as nat));
        }
    }
}

proof fn lemma_skip(
    symbols: Seq<Symbol>,
    rules: Seq<Rule>,
    old: Seq<bool>,
    next: Seq<bool>,
    chosen: Seq<usize>,
    rank: Seq<nat>,
    round: nat,
    j: int,
)
    requires
        tables_ok(symbols, rules),
        rank.len() == symbols.len(),
        within_round(rules, old, next, chosen, rank, round, j),
        0 <= j < rules.len(),
        next[rules[j].head as int] || !(forall|k: int|
            0 <= k < rules[j].body.len() ==> old[(#[trigger] rules[j].body[k]) as int]),
    ensures
        within_round(rules, old, next, chosen, rank, round, j + 1),
{
    assert(rule_ok(symbols, rules[j]));
    assert forall|r: int| 0 <= r < j + 1 implies #[trigger] closed_below(
        rules,
        rank,
        r,
        (round - 1) as nat,
    ) by {
        if r == j && body_within(rank, rules[j].body@, (round - 1) as nat) {
            assert forall|k: int| 0 <= k < rules[j].body.len() implies old[(
            #[trigger] rules[j].body[k]) as int] by {
                assert(0 < rank[rules[j].body[k] as int] <= (round - 1) as nat);
            }
        }
    }
}

proof fn lemma_round_done(
    symbols: Seq<Symbol>,
    rules: Seq<Rule>,
    old: Seq<bool>,
    next: Seq<bool>,
    chosen: Seq<usize>,
    rank: Seq<nat>,
    round: nat,
)
    requires
        tables_ok(symbols, rules),
        rank.len() == symbols.len(),
        within_round(rules, old, next, chosen, rank, round, rules.len() as int),
    ensures
        between_rounds(rules, next, chosen, rank, round + 1),
{
    assert forall|r: int, bound: nat|
        0 <= r < rules.len() && bound + 1 < round + 1 implies #[trigger] closed_below(
        rules,
        rank,
        r,
        bound,
    ) by {
        if bound + 1 < round {
            assert(closed_below(rules, rank, r, bound));
        } else {
            assert(closed_below(rules, rank, r, (round - 1) as nat));
        }
    }
}

proof fn lemma_fixed_point(
    symbols: Seq<Symbol>,
    rules: Seq<Rule>,
    old: Seq<bool>,
    next: Seq<bool>,
    chosen: Seq<usize>,
    rank: Seq<nat>,
    round: nat,
)
    requires
        tables_ok(symbols, rules),
        rank.len() == symbols.len(),
        within_round(rules, old, next, chosen, rank, round, rules.len() as int),
        next == old,
    ensures
        ranks_ok(rules, next, chosen, rank),
{
    assert forall|x: int| 0 <= x < rank.len() implies (#[trigger] rank[x]) < round by {
        assert(old[x] == next[x]);
    }
    assert forall|r: int, bound: nat| 0 <= r < rules.len() implies #[trigger] closed_below(
        rules,
        rank,
        r,
        bound,
    ) by {
        assert(rule_ok(symbols, rules[r]));
        if body_within(rank, rules[r].body@, bound) {
            if bound + 1 <= round {
                if bound + 1 < round {
                    assert(closed_below(rules, rank, r, bound));
                } else {
                    assert(closed_below(rules, rank, r, (round - 1) as nat));
                }
            } else {
                let low = (round - 1) as nat;
                assert forall|k: int| 0 <= k < rules[r].body.len() implies 0 < rank[(
                #[trigger] rules[r].body[k]) as int] <= low by {
                    assert(0 < rank[rules[r].body[k] as int] <= bound);
                }
                assert(closed_below(rules, rank, r, low));
            }
        }
    }
}

/// Finds the symbols that derive the empty string. Round `k` ranks every
/// symbol not ranked before that has a rule whose body symbols were all
/// ranked in earlier rounds; the first such rule becomes its chosen rule.
pub(crate) fn find_nullable(symbols: &Vec<Symbol>, rules: &Vec<Rule>) -> (r: (
    Vec<bool>,
    Vec<usize>,
    Ghost<Seq<nat>>,
))
    requires
        tables_ok(symbols@, rules@),
    ensures
        r.2@.len() == symbols.len(),
        ranks_ok(rules@, r.0@, r.1@, r.2@),
{
    let mut nullable: Vec<bool> = Vec::new();
    let mut chosen: Vec<usize> = Vec::new();
    let mut i: usize = 0;
    while i < symbols.len()
        invariant
            i <= symbols.len(),
            nullable.len() == i,
            chosen.len() == i,
            forall|x: int| 0 <= x < i ==> !nullable[x],
            forall|x: int| 0 <= x < i ==> chosen[x] == 0,
        decreases symbols.len() - i,
    {
        nullable.push(false);
        chosen.push(0);
        i += 1;
    }
    let ghost mut rank: Seq<nat> = Seq::new(symbols.len() as nat, |x: int| 0nat);
    let ghost mut round: nat = 1;
    let mut progress = true;
    while progress
        invariant
            tables_ok(symbols@, rules@),
            rank.len() == symbols.len(),
            between_rounds(rules@, nullable@, chosen@, rank, round),
            !progress ==> ranks_ok(rules@, nullable@, chosen@, rank),
        decreases count_false(nullable@) + if progress { 1nat } else { 0nat },
    {
        progress = false;
        let mut next = copy_flags(&nullable);
        let mut j: usize = 0;
        while j < rules.len()
            invariant
                j <= rules.len(),
                tables_ok(symbols@, rules@),
                rank.len() == symbols.len(),
                within_round(rules@, nullable@, next@, chosen@, rank, round, j as int),
                !progress ==> next@ == nullable@,
                progress ==> count_false(next@) < count_false(nullable@),
            decreases rules.len() - j,
        {
            let head = rules[j].head;
            proof {
                assert(rule_ok(symbols@, rules@[j as int]));
            }
            if !next[head] && all_set(&nullable, &rules[j].body) {
                proof {
                    lemma_mark(symbols@, rules@, nullable@, next@, chosen@, rank, round, j);
                    lemma_count_set(next@, head as int);
                    rank = rank.update(head as int, round);
                }
                let ghost before = next@;
                next.set(head, true);
                chosen.set(head, j);
                progress = true;
                proof {
                    lemma_count_mono(nullable@, before);
                }
            } else {
                proof {
                    lemma_skip(symbols@, rules@, nullable@, next@, chosen@, rank, round, j as int);
                }
            }
            j += 1;
        }
        proof {
            if !progress {
                lemma_fixed_point(symbols@, rules@, nullable@, next@, chosen@, rank, round);
            }
            lemma_round_done(symbols@, rules@, nullable@, next@, chosen@, rank, round);
            round = round + 1;
        }
        nullable = next;
    }
    (nullable, chosen, Ghost(rank))
}

/// Flags that only gained `true` entries have no more `false` entries.
proof fn lemma_count_mono(old: Seq<bool>, next: Seq<bool>)
    requires
        old.len() == next.len(),
        forall|x: int| 0 <= x < old.len() ==> (#[trigger] old[x] ==> next[x]),
    ensures
        count_false(next) <= count_false(old),
    decreases old.len(),
{
    if old.len() > 0 {
        lemma_count_mono(old.drop_last(), next.drop_last());
    }
}

/// Where both rankings are sound for rules with the same heads and
/// bodies, a symbol that the second ranks is ranked by the first no
/// higher.
pub proof fn lemma_rank_below(
    rules: Seq<Rule>,
    rules2: Seq<Rule>,
    nullable: Seq<bool>,
    chosen: Seq<usize>,
    first: Seq<nat>,
    nullable2: Seq<bool>,
    chosen2: Seq<usize>,
    second: Seq<nat>,
    x: int,
)
    requires
        ranks_ok(rules, nullable, chosen, first),
        ranks_ok(rules2, nullable2, chosen2, second),
        same_rules(rules, rules2, first.len()),
        first.len() == second.len(),
        0 <= x < first.len(),
        second[x] > 0,
    ensures
        0 < first[x] <= second[x],
    decreases second[x],
{
    assert(chosen_ok(rules2, second, chosen2, x));
    let c = chosen2[x] as int;
    let bound = (second[x] - 1) as nat;
    assert(rules[c].head == rules2[c].head);
    assert forall|k: int| 0 <= k < rules[c].body.len() implies 0 < first[(
    #[trigger] rules[c].body@[k]) as int] <= bound by {
        let y = rules[c].body[k] as int;
        assert(rules2[c].body@[k] == rules[c].body@[k]);
        assert(0 < second[rules2[c].body@[k] as int] <= bound);
        lemma_rank_below(rules, rules2, nullable, chosen, first, nullable2, chosen2, second, y);
    }
    assert(body_within(first, rules[c].body@, bound));
    assert(closed_below(rules, first, c, bound));
}

/// Whether the rules have the same heads and bodies, one by one, over
/// `count` symbols.
pub open spec fn same_rules(rules: Seq<Rule>, rules2: Seq<Rule>, count: nat) -> bool {
    &&& rules.len() == rules2.len()
    &&& forall|r: int|
        0 <= r < rules.len() ==> (#[trigger] rules[r]).head == rules2[r].head && rules[r].body@
            == rules2[r].body@
    &&& forall|r: int, k: int|
        0 <= r < rules.len() && 0 <= k < rules[r].body.len() ==> (#[trigger] rules[r].body[k])
            < count
}

/// Rules with the same heads and bodies have one sound ranking, with the
/// same nullable symbols and the same chosen rules.
pub proof fn lemma_ranks_unique(
    rules: Seq<Rule>,
    rules2: Seq<Rule>,
    nullable: Seq<bool>,
    chosen: Seq<usize>,
    first: Seq<nat>,
    nullable2: Seq<bool>,
    chosen2: Seq<usize>,
    second: Seq<nat>,
)
    requires
        ranks_ok(rules, nullable, chosen, first),
        ranks_ok(rules2, nullable2, chosen2, second),
        same_rules(rules, rules2, first.len()),
        first.len() == second.len(),
    ensures
        first == second,
        nullable == nullable2,
        chosen == chosen2,
{
    assert(same_rules(rules2, rules, second.len())) by {
        assert forall|r: int| 0 <= r < rules2.len() implies (#[trigger] rules2[r]).head
            == rules[r].head && rules2[r].body@ == rules[r].body@ by {
            assert(rules[r].head == rules2[r].head);
        }
        assert forall|r: int, k: int|
            0 <= r < rules2.len() && 0 <= k < rules2[r].body.len() implies (
        #[trigger] rules2[r].body[k]) < second.len() by {
            assert(rules[r].body@ == rules2[r].body@);
            assert(rules[r].body[k] < first.len());
        }
    }
    assert forall|x: int| 0 <= x < first.len() implies first[x] == second[x] by {
        if second[x] > 0 {
            lemma_rank_below(rules, rules2, nullable, chosen, first, nullable2, chosen2, second, x);
        }
        if first[x] > 0 {
            lemma_rank_below(rules2, rules, nullable2, chosen2, second, nullable, chosen, first, x);
        }
    }
    assert(first =~= second);
    assert forall|x: int| 0 <= x < first.len() implies nullable[x] == nullable2[x] by {
        assert(nullable[x] == (first[x] > 0));
        assert(nullable2[x] == (second[x] > 0));
    }
    assert(nullable =~= nullable2);
    assert forall|x: int| 0 <= x < first.len() implies chosen[x] == chosen2[x] by {
        assert(chosen_ok(rules, first, chosen, x));
        assert(chosen_ok(rules2, second, chosen2, x));
        if first[x] > 0 {
            let a = chosen[x] as int;
            let b = chosen2[x] as int;
            let bound = (first[x] - 1) as nat;
            assert(rules[a].body@ == rules2[a].body@);
            assert(rules[b].body@ == rules2[b].body@);
            assert(rules[a].head == rules2[a].head);
            assert(rules[b].head == rules2[b].head);
            if a < b {
                assert(!body_within(second, rules2[a].body@, bound));
            }
            if b < a {
                assert(!body_within(first, rules[b].body@, bound));
            }
        }
    }
    assert(chosen =~= chosen2);
}

} // verus!
