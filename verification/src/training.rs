//! What training learns: the rules of successive merge rounds.

use crate::merge::{
    apply_rules, byte_ids, lemma_apply_rules_concat, lemma_apply_rules_one, lemma_merge_pass_bound,
    lemma_merge_pass_len, lemma_merge_pass_neighbours, lemma_merge_pass_shrinks, merge_pass,
    pairs_distinct, rule_fits, rules_wf, same_pair, MergeRule,
};
use crate::pairs::{
    best_pair, lemma_best_pair_exists, lemma_counted_has_window, pair_absent, pair_count, window,
    window_total,
};
use vstd::prelude::*;

verus! {

/// Largest number of rules for which ids remain: ids are 32-bit, and the
/// first 256 of them are the base alphabet.
pub const MAX_RULES: usize = 0xFFFF_FEFF;

/// The rule that fuses `pair` into `new_id`.
pub open spec fn rule_for(pair: (u32, u32), new_id: u32) -> MergeRule {
    MergeRule { left: pair.0, right: pair.1, new_id }
}

/// The rules that up to `budget` rounds learn from the token sequence `ids`,
/// in learning order, the first of them producing the id `first_id`.
///
/// A round selects the best pair of the current sequence, gives it the next
/// id, and rewrites the sequence with one pass of the new rule; the next
/// round works on the rewritten sequence. Rounds stop early once fewer than
/// two symbols remain.
pub open spec fn learned_rules(ids: Seq<u32>, first_id: nat, budget: nat) -> Seq<MergeRule>
    decreases budget,
{
    if budget == 0 || ids.len() < 2 {
        Seq::empty()
    } else {
        let rule = rule_for(best_pair(ids), first_id as u32);
        seq![rule] + learned_rules(merge_pass(ids, rule), first_id + 1, (budget - 1) as nat)
    }
}

/// The rules that training on `corpus` with a budget of `budget` rounds
/// learns: the corpus is read once, as one base id per byte, and ids are
/// handed out from 256.
pub open spec fn trained_rules(corpus: Seq<u8>, budget: nat) -> Seq<MergeRule> {
    learned_rules(byte_ids(corpus), 256, budget)
}

/// The token sequence that training ends with: the sequence as the last of
/// the rounds of `learned_rules` rewrote it.
pub open spec fn trained_tokens(ids: Seq<u32>, first_id: nat, budget: nat) -> Seq<u32>
    decreases budget,
{
    if budget == 0 || ids.len() < 2 {
        ids
    } else {
        let rule = rule_for(best_pair(ids), first_id as u32);
        trained_tokens(merge_pass(ids, rule), first_id + 1, (budget - 1) as nat)
    }
}

/// Whether a corpus of `corpus_len` bytes and a budget of `budget` rounds
/// leave every learned rule an id: no call learns more rules than its budget,
/// nor as many as the corpus has bytes.
pub open spec fn ids_suffice(corpus_len: nat, budget: nat) -> bool {
    corpus_len <= MAX_RULES || budget <= MAX_RULES
}

/// Whether ids from `first_id` on remain for every rule that training on a
/// sequence of `len` symbols with `budget` rounds can learn.
pub open spec fn ids_remain(first_id: nat, len: nat, budget: nat) -> bool {
    first_id + budget <= u32::MAX + 1 || first_id + len <= u32::MAX + 1
}

/// Every symbol of `ids` is below `bound`.
pub open spec fn all_below(ids: Seq<u32>, bound: nat) -> bool {
    forall|i: int| 0 <= i < ids.len() ==> ids[i] < bound
}

/// Both symbols of the best pair occur in the sequence it was selected from.
pub proof fn lemma_best_pair_occurs(ids: Seq<u32>) -> (at: int)
    requires
        ids.len() >= 2,
    ensures
        0 <= at,
        at + 1 < ids.len(),
        ids[at] == best_pair(ids).0,
        ids[at + 1] == best_pair(ids).1,
{
    lemma_best_pair_exists(ids);
    assert(pair_count(ids, best_pair(ids)) > 0);
    lemma_counted_has_window(ids, best_pair(ids), window_total(ids))
}

/// Training learns no more rules than its budget allows, and fewer than the
/// sequence has symbols.
pub proof fn lemma_learned_len(ids: Seq<u32>, first_id: nat, budget: nat)
    ensures
        learned_rules(ids, first_id, budget).len() <= budget,
        ids.len() > 0 ==> learned_rules(ids, first_id, budget).len() < ids.len(),
    decreases budget,
{
    if budget > 0 && ids.len() >= 2 {
        let rule = rule_for(best_pair(ids), first_id as u32);
        let at = lemma_best_pair_occurs(ids);
        lemma_merge_pass_shrinks(ids, rule, at);
        lemma_merge_pass_len(ids, rule);
        lemma_learned_len(merge_pass(ids, rule), first_id + 1, (budget - 1) as nat);
    }
}

/// Training uses its whole budget unless it stopped early, that is, unless
/// the sequence that the learned rules leave has fewer than two symbols.
pub proof fn lemma_learned_stops_early(ids: Seq<u32>, first_id: nat, budget: nat)
    ensures
        learned_rules(ids, first_id, budget).len() == budget || apply_rules(
            ids,
            learned_rules(ids, first_id, budget),
        ).len() < 2,
    decreases budget,
{
    if budget > 0 && ids.len() >= 2 {
        let rule = rule_for(best_pair(ids), first_id as u32);
        let next = merge_pass(ids, rule);
        let rest = learned_rules(next, first_id + 1, (budget - 1) as nat);
        lemma_learned_stops_early(next, first_id + 1, (budget - 1) as nat);
        lemma_apply_rules_concat(ids, seq![rule], rest);
        lemma_apply_rules_one(ids, rule);
    }
}

/// Replaying the learned rules over the sequence they were learned from
/// reproduces the sequence that training ended with.
pub proof fn lemma_replay_reproduces_training(ids: Seq<u32>, first_id: nat, budget: nat)
    ensures
        apply_rules(ids, learned_rules(ids, first_id, budget)) == trained_tokens(
            ids,
            first_id,
            budget,
        ),
    decreases budget,
{
    if budget > 0 && ids.len() >= 2 {
        let rule = rule_for(best_pair(ids), first_id as u32);
        let next = merge_pass(ids, rule);
        let rest = learned_rules(next, first_id + 1, (budget - 1) as nat);
        lemma_replay_reproduces_training(next, first_id + 1, (budget - 1) as nat);
        lemma_apply_rules_concat(ids, seq![rule], rest);
        lemma_apply_rules_one(ids, rule);
    }
}

/// A larger budget only adds rules at the end: what `fewer` rounds learn is
/// the beginning of what `more` rounds learn.
pub proof fn lemma_learned_extends(ids: Seq<u32>, first_id: nat, fewer: nat, more: nat)
    requires
        fewer <= more,
    ensures
        learned_rules(ids, first_id, fewer).len() <= learned_rules(ids, first_id, more).len(),
        learned_rules(ids, first_id, fewer) == learned_rules(ids, first_id, more).take(
            learned_rules(ids, first_id, fewer).len() as int,
        ),
    decreases fewer,
{
    let short = learned_rules(ids, first_id, fewer);
    let long = learned_rules(ids, first_id, more);
    if fewer > 0 && ids.len() >= 2 {
        let rule = rule_for(best_pair(ids), first_id as u32);
        let next = merge_pass(ids, rule);
        lemma_learned_extends(next, first_id + 1, (fewer - 1) as nat, (more - 1) as nat);
        assert(short =~= long.take(short.len() as int));
    } else {
        assert(short =~= long.take(0));
    }
}

/// What one round keeps true: the rewritten sequence is shorter, its symbols
/// are below the next id, and the pair just merged is gone from it.
proof fn lemma_round(ids: Seq<u32>, first_id: nat, budget: nat)
    requires
        budget > 0,
        ids.len() >= 2,
        all_below(ids, first_id),
        ids_remain(first_id, ids.len(), budget),
    ensures
        first_id <= u32::MAX,
        best_pair(ids).0 < first_id,
        best_pair(ids).1 < first_id,
        ({
            let rule = rule_for(best_pair(ids), first_id as u32);
            let next = merge_pass(ids, rule);
            &&& next.len() < ids.len()
            &&& all_below(next, first_id + 1)
            &&& ids_remain(first_id + 1, next.len(), (budget - 1) as nat)
            &&& pair_absent(next, best_pair(ids))
        }),
{
    let rule = rule_for(best_pair(ids), first_id as u32);
    let next = merge_pass(ids, rule);
    let at = lemma_best_pair_occurs(ids);
    lemma_merge_pass_shrinks(ids, rule, at);
    lemma_merge_pass_bound(ids, rule, (first_id + 1) as int);
    assert forall|j: int| 0 <= j && j + 1 < next.len() implies #[trigger] window(next, j)
        != best_pair(ids) by {
        if window(next, j) == best_pair(ids) {
            let from = lemma_merge_pass_neighbours(ids, rule, j);
        }
    }
}

/// A pair that is absent before a round, and made of symbols below the
/// round's id, is absent after it.
proof fn lemma_round_keeps_absent(ids: Seq<u32>, rule: MergeRule, pair: (u32, u32))
    requires
        pair_absent(ids, pair),
        pair.0 != rule.new_id,
        pair.1 != rule.new_id,
    ensures
        pair_absent(merge_pass(ids, rule), pair),
{
    let next = merge_pass(ids, rule);
    assert forall|j: int| 0 <= j && j + 1 < next.len() implies #[trigger] window(next, j)
        != pair by {
        if window(next, j) == pair {
            let from = lemma_merge_pass_neighbours(ids, rule, j);
            assert(window(ids, from) == pair);
        }
    }
}

/// Learned rules get consecutive ids from `first_id`, and each combines only
/// symbols below its own id.
pub proof fn lemma_learned_fits(ids: Seq<u32>, first_id: nat, budget: nat)
    requires
        all_below(ids, first_id),
        ids_remain(first_id, ids.len(), budget),
    ensures
        forall|i: int|
            0 <= i < learned_rules(ids, first_id, budget).len() ==> {
                let rule = #[trigger] learned_rules(ids, first_id, budget)[i];
                &&& rule.new_id == first_id + i
                &&& rule.left < first_id + i
                &&& rule.right < first_id + i
            },
    decreases budget,
{
    if budget > 0 && ids.len() >= 2 {
        let rule = rule_for(best_pair(ids), first_id as u32);
        let next = merge_pass(ids, rule);
        let rest = learned_rules(next, first_id + 1, (budget - 1) as nat);
        lemma_round(ids, first_id, budget);
        lemma_learned_fits(next, first_id + 1, (budget - 1) as nat);
        assert forall|i: int| 0 <= i < learned_rules(ids, first_id, budget).len() implies {
            let r = #[trigger] learned_rules(ids, first_id, budget)[i];
            &&& r.new_id == first_id + i
            &&& r.left < first_id + i
            &&& r.right < first_id + i
        } by {
            if i > 0 {
                assert(learned_rules(ids, first_id, budget)[i] == rest[i - 1]);
            }
        }
    }
}

/// Training never learns a rule for a pair that is absent from the sequence
/// and made of symbols below the first id: such a pair stays absent.
pub proof fn lemma_learned_avoids(ids: Seq<u32>, first_id: nat, budget: nat, pair: (u32, u32))
    requires
        all_below(ids, first_id),
        ids_remain(first_id, ids.len(), budget),
        pair.0 < first_id,
        pair.1 < first_id,
        pair_absent(ids, pair),
    ensures
        forall|i: int|
            0 <= i < learned_rules(ids, first_id, budget).len() ==> {
                let rule = #[trigger] learned_rules(ids, first_id, budget)[i];
                (rule.left, rule.right) != pair
            },
    decreases budget,
{
    if budget > 0 && ids.len() >= 2 {
        let rule = rule_for(best_pair(ids), first_id as u32);
        let next = merge_pass(ids, rule);
        let rest = learned_rules(next, first_id + 1, (budget - 1) as nat);
        lemma_round(ids, first_id, budget);
        lemma_round_keeps_absent(ids, rule, pair);
        lemma_learned_avoids(next, first_id + 1, (budget - 1) as nat, pair);
        let at = lemma_best_pair_occurs(ids);
        assert(window(ids, at) == best_pair(ids));
        assert forall|i: int| 0 <= i < learned_rules(ids, first_id, budget).len() implies {
            let r = #[trigger] learned_rules(ids, first_id, budget)[i];
            (r.left, r.right) != pair
        } by {
            if i > 0 {
                assert(learned_rules(ids, first_id, budget)[i] == rest[i - 1]);
            }
        }
    }
}

/// Training learns at most one rule for a pair: once merged, a pair never
/// occurs again in the sequence that later rounds work on.
pub proof fn lemma_learned_distinct(ids: Seq<u32>, first_id: nat, budget: nat)
    requires
        all_below(ids, first_id),
        ids_remain(first_id, ids.len(), budget),
    ensures
        pairs_distinct(learned_rules(ids, first_id, budget)),
    decreases budget,
{
    let learned = learned_rules(ids, first_id, budget);
    if budget > 0 && ids.len() >= 2 {
        let rule = rule_for(best_pair(ids), first_id as u32);
        let next = merge_pass(ids, rule);
        let rest = learned_rules(next, first_id + 1, (budget - 1) as nat);
        lemma_round(ids, first_id, budget);
        lemma_learned_distinct(next, first_id + 1, (budget - 1) as nat);
        lemma_learned_avoids(next, first_id + 1, (budget - 1) as nat, best_pair(ids));
        assert forall|i: int, j: int| 0 <= i < j < learned.len() implies !same_pair(
            #[trigger] learned[i],
            #[trigger] learned[j],
        ) by {
            assert(learned[j] == rest[j - 1]);
            if i > 0 {
                assert(learned[i] == rest[i - 1]);
            }
        }
    }
}

/// The rules that training learns from a corpus are well formed, and no two
/// of them are for the same pair.
pub proof fn lemma_trained_rules_wf(corpus: Seq<u8>, budget: nat)
    requires
        ids_suffice(corpus.len(), budget),
    ensures
        rules_wf(trained_rules(corpus, budget)),
        pairs_distinct(trained_rules(corpus, budget)),
{
    let ids = byte_ids(corpus);
    lemma_learned_len(ids, 256, budget);
    lemma_learned_fits(ids, 256, budget);
    lemma_learned_distinct(ids, 256, budget);
    assert forall|i: int| 0 <= i < trained_rules(corpus, budget).len() implies rule_fits(
        #[trigger] trained_rules(corpus, budget)[i],
        i,
    ) by {}
}

} // verus!
