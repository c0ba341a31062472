//! The vocabulary: the byte expansion of every symbol id.

use crate::merge::{lemma_rules_wf_prefix, rule_fits, rules_wf, MergeRule};
use std::collections::HashMap;
use vstd::prelude::*;

verus! {

/// The vocabulary before any rule: each base id expands to its own byte.
pub open spec fn base_vocab() -> Map<u32, Seq<u8>> {
    Map::new(|id: u32| id < 256, |id: u32| seq![id as u8])
}

/// Whether `vocab` holds the base entries: each base id with its own byte.
pub open spec fn has_base_entries(vocab: Map<u32, Seq<u8>>) -> bool {
    forall|id: u32|
        id < 256 ==> #[trigger] vocab.contains_key(id) && vocab[id] == seq![id as u8]
}

/// The vocabulary that replaying `rules` in order builds on the base
/// vocabulary: each rule's id expands to the expansion of its left
/// constituent followed by that of its right, as they stand when the rule
/// is replayed.
pub open spec fn replay_vocab(rules: Seq<MergeRule>) -> Map<u32, Seq<u8>>
    decreases rules.len(),
{
    if rules.len() == 0 {
        base_vocab()
    } else {
        let earlier = replay_vocab(rules.drop_last());
        let rule = rules.last();
        earlier.insert(rule.new_id, earlier[rule.left] + earlier[rule.right])
    }
}

/// What `id` contributes to decoded output: its expansion, or nothing where
/// the vocabulary does not know it.
pub open spec fn entry_or_empty(vocab: Map<u32, Seq<u8>>, id: u32) -> Seq<u8> {
    if vocab.contains_key(id) {
        vocab[id]
    } else {
        Seq::empty()
    }
}

/// The bytes that `ids` stand for: the expansions of the known ids, in order.
pub open spec fn expand(vocab: Map<u32, Seq<u8>>, ids: Seq<u32>) -> Seq<u8>
    decreases ids.len(),
{
    if ids.len() == 0 {
        Seq::empty()
    } else {
        expand(vocab, ids.drop_last()) + entry_or_empty(vocab, ids.last())
    }
}

/// The vocabulary that a table of byte vectors stands for.
pub open spec fn expansions(table: Map<u32, Vec<u8>>) -> Map<u32, Seq<u8>> {
    Map::new(|id: u32| table.contains_key(id), |id: u32| table[id]@)
}

/// The ids below `n`.
pub open spec fn ids_below(n: nat) -> Set<u32> {
    Set::new(|id: u32| id < n)
}

/// The table of the base vocabulary: one single-byte entry for each of the
/// 256 base ids.
pub fn base_table() -> (table: HashMap<u32, Vec<u8>>)
    ensures
        expansions(table@) == base_vocab(),
{
    let mut table: HashMap<u32, Vec<u8>> = HashMap::new();
    let mut id: u32 = 0;
    while id < 256
        invariant
            id <= 256,
            forall|i: u32| #[trigger] table@.contains_key(i) <==> i < id,
            forall|i: u32| i < id ==> (#[trigger] table@[i])@ == seq![i as u8],
        decreases 256 - id,
    {
        let mut bytes: Vec<u8> = Vec::new();
        bytes.push(id as u8);
        assert(bytes@ =~= seq![id as u8]);
        table.insert(id, bytes);
        id += 1;
    }
    assert(expansions(table@) =~= base_vocab());
    table
}

/// Replaying well-formed rules yields entries for exactly the ids below
/// `256 + rules.len()`.
pub proof fn lemma_replay_domain(rules: Seq<MergeRule>)
    requires
        rules_wf(rules),
    ensures
        forall|id: u32| #[trigger]
            replay_vocab(rules).contains_key(id) <==> id < 256 + rules.len(),
    decreases rules.len(),
{
    if rules.len() > 0 {
        let earlier = replay_vocab(rules.drop_last());
        lemma_rules_wf_prefix(rules, rules.len() - 1);
        assert(rules.take(rules.len() - 1) =~= rules.drop_last());
        lemma_replay_domain(rules.drop_last());
        assert(rule_fits(rules[rules.len() - 1], rules.len() - 1));
        assert forall|id: u32| #[trigger]
            replay_vocab(rules).contains_key(id) <==> id < 256 + rules.len() by {
            assert(earlier.contains_key(id) <==> id < 256 + rules.len() - 1);
        }
    }
}

/// There are `n` ids below `n`, as long as `n` ids exist.
pub proof fn lemma_ids_below_len(n: nat)
    requires
        n <= u32::MAX + 1,
    ensures
        ids_below(n).finite(),
        ids_below(n).len() == n,
    decreases n,
{
    if n == 0 {
        assert(ids_below(n) =~= Set::<u32>::empty());
    } else {
        lemma_ids_below_len((n - 1) as nat);
        assert(ids_below(n) =~= ids_below((n - 1) as nat).insert((n - 1) as u32));
    }
}

/// The vocabulary of well-formed rules has `256 + rules.len()` entries.
pub proof fn lemma_replay_size(rules: Seq<MergeRule>)
    requires
        rules_wf(rules),
    ensures
        replay_vocab(rules).dom() == ids_below(256 + rules.len()),
        replay_vocab(rules).dom().finite(),
        replay_vocab(rules).dom().len() == 256 + rules.len(),
{
    lemma_replay_domain(rules);
    lemma_ids_below_len(256 + rules.len());
    assert(replay_vocab(rules).dom() =~= ids_below(256 + rules.len()));
}

/// Rules replayed after the first `k` leave the entries of the ids below
/// `256 + k` as they were.
pub proof fn lemma_replay_stable(rules: Seq<MergeRule>, k: int, id: u32)
    requires
        rules_wf(rules),
        0 <= k <= rules.len(),
        id < 256 + k,
    ensures
        replay_vocab(rules)[id] == replay_vocab(rules.take(k))[id],
    decreases rules.len(),
{
    if k == rules.len() {
        assert(rules.take(k) =~= rules);
    } else {
        let n = rules.len() - 1;
        lemma_rules_wf_prefix(rules, n);
        assert(rules.take(n) =~= rules.drop_last());
        assert(rules.drop_last().take(k) =~= rules.take(k));
        lemma_replay_stable(rules.drop_last(), k, id);
        assert(rule_fits(rules[n], n));
    }
}

/// In the vocabulary of well-formed rules, each base id expands to its own
/// byte.
pub proof fn lemma_replay_base_entry(rules: Seq<MergeRule>, id: u32)
    requires
        rules_wf(rules),
        id < 256,
    ensures
        replay_vocab(rules)[id] == seq![id as u8],
{
    lemma_replay_stable(rules, 0, id);
    assert(rules.take(0) =~= Seq::<MergeRule>::empty());
}

/// In the vocabulary of well-formed rules, the expansion of each rule's id
/// is the expansion of its left constituent followed by that of its right.
pub proof fn lemma_replay_rule_entry(rules: Seq<MergeRule>, i: int)
    requires
        rules_wf(rules),
        0 <= i < rules.len(),
    ensures
        replay_vocab(rules)[rules[i].new_id] == replay_vocab(rules)[rules[i].left] + replay_vocab(
            rules,
        )[rules[i].right],
{
    let rule = rules[i];
    assert(rule_fits(rule, i));
    let upto = rules.take(i + 1);
    assert(upto.drop_last() =~= rules.take(i));
    assert(upto.last() == rule);
    lemma_replay_stable(rules, i + 1, rule.new_id);
    lemma_replay_stable(rules, i, rule.left);
    lemma_replay_stable(rules, i, rule.right);
}

/// The bytes of a concatenation are the bytes of its parts, concatenated.
pub proof fn lemma_expand_concat(vocab: Map<u32, Seq<u8>>, a: Seq<u32>, b: Seq<u32>)
    ensures
        expand(vocab, a + b) == expand(vocab, a) + expand(vocab, b),
    decreases b.len(),
{
    if b.len() == 0 {
        assert(a + b =~= a);
        assert(expand(vocab, a) + expand(vocab, b) =~= expand(vocab, a));
    } else {
        lemma_expand_concat(vocab, a, b.drop_last());
        assert((a + b).drop_last() =~= a + b.drop_last());
        assert((expand(vocab, a) + expand(vocab, b.drop_last())) + entry_or_empty(
            vocab,
            b.last(),
        ) =~= expand(vocab, a) + (expand(vocab, b.drop_last()) + entry_or_empty(vocab, b.last())));
    }
}

/// A single id stands for its own entry.
pub proof fn lemma_expand_one(vocab: Map<u32, Seq<u8>>, id: u32)
    ensures
        expand(vocab, seq![id]) == entry_or_empty(vocab, id),
{
    assert(seq![id].drop_last() =~= Seq::<u32>::empty());
    assert(expand(vocab, Seq::<u32>::empty()) =~= Seq::<u8>::empty());
    assert(expand(vocab, seq![id]) =~= entry_or_empty(vocab, id));
}

} // verus!
