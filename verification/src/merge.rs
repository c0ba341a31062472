//! Merge rules and the substitution pass that applies one of them.

use crate::pairs::{pair_absent, window};
use vstd::prelude::*;

verus! {

/// A learned substitution: wherever `left` is directly followed by `right`,
/// the two symbols are replaced by `new_id`.
#[derive(Clone, Copy, Debug, PartialEq, Eq, Structural)]
pub struct MergeRule {
    pub left: u32,
    pub right: u32,
    pub new_id: u32,
}

/// The token sequence that stands for raw bytes: one id per byte.
pub open spec fn byte_ids(bytes: Seq<u8>) -> Seq<u32> {
    Seq::new(bytes.len(), |i: int| bytes[i] as u32)
}

/// One left-to-right, non-overlapping substitution pass of `rule` over `ids`.
///
/// At each position, if the symbol and its successor are the rule's pair,
/// both are consumed and `new_id` is emitted; otherwise the symbol is emitted
/// and the scan advances by one.
pub open spec fn merge_pass(ids: Seq<u32>, rule: MergeRule) -> Seq<u32>
    decreases ids.len(),
{
    if ids.len() < 2 {
        ids
    } else if ids[0] == rule.left && ids[1] == rule.right {
        seq![rule.new_id] + merge_pass(ids.skip(2), rule)
    } else {
        seq![ids[0]] + merge_pass(ids.skip(1), rule)
    }
}

/// The passes of `rules`, one after the other in the order of the sequence,
/// each over the whole output of the one before.
pub open spec fn apply_rules(ids: Seq<u32>, rules: Seq<MergeRule>) -> Seq<u32>
    decreases rules.len(),
{
    if rules.len() == 0 {
        ids
    } else {
        merge_pass(apply_rules(ids, rules.drop_last()), rules.last())
    }
}

/// Whether rule number `i` of the learning order is well formed at that
/// place: it produces the id `256 + i` from two ids below that.
pub open spec fn rule_fits(rule: MergeRule, i: int) -> bool {
    &&& rule.new_id == 256 + i
    &&& rule.left < 256 + i
    &&& rule.right < 256 + i
}

/// Rules in learning order: ids are handed out consecutively from 256, with
/// no gaps, and each rule combines only base ids and ids of earlier rules.
pub open spec fn rules_wf(rules: Seq<MergeRule>) -> bool {
    &&& 256 + rules.len() <= u32::MAX
    &&& forall|i: int| 0 <= i < rules.len() ==> rule_fits(#[trigger] rules[i], i)
}

/// Whether `rule` is the rule for the pair `(left, right)`.
pub open spec fn has_pair(rule: MergeRule, left: u32, right: u32) -> bool {
    rule.left == left && rule.right == right
}

/// Whether two rules are for the same pair of symbols.
pub open spec fn same_pair(a: MergeRule, b: MergeRule) -> bool {
    has_pair(a, b.left, b.right)
}

/// No two of the rules are for the same pair: the rules map each pair to
/// one id.
pub open spec fn pairs_distinct(rules: Seq<MergeRule>) -> bool {
    forall|i: int, j: int|
        0 <= i < j < rules.len() ==> !same_pair(#[trigger] rules[i], #[trigger] rules[j])
}

/// Promotes each byte to its base id.
pub fn bytes_to_ids(bytes: &[u8]) -> (ids: Vec<u32>)
    ensures
        ids@ == byte_ids(bytes@),
{
    let mut ids: Vec<u32> = Vec::with_capacity(bytes.len());
    let mut i: usize = 0;
    while i < bytes.len()
        invariant
            i <= bytes.len(),
            ids@ == byte_ids(bytes@.take(i as int)),
        decreases bytes.len() - i,
    {
        ids.push(bytes[i] as u32);
        i += 1;
        assert(ids@ =~= byte_ids(bytes@.take(i as int)));
    }
    assert(bytes@.take(i as int) =~= bytes@);
    ids
}

/// Runs one substitution pass of `rule` over `ids`.
pub fn merge_pair(ids: &Vec<u32>, rule: MergeRule) -> (out: Vec<u32>)
    ensures
        out@ == merge_pass(ids@, rule),
{
    let mut out: Vec<u32> = Vec::with_capacity(ids.len());
    let mut i: usize = 0;
    assert(ids@.skip(0) =~= ids@);
    while i < ids.len()
        invariant
            i <= ids.len(),
            out@ + merge_pass(ids@.skip(i as int), rule) == merge_pass(ids@, rule),
        decreases ids.len() - i,
    {
        let ghost rest = ids@.skip(i as int);
        if i + 1 < ids.len() && ids[i] == rule.left && ids[i + 1] == rule.right {
            out.push(rule.new_id);
            i += 2;
            assert(rest.skip(2) =~= ids@.skip(i as int));
        } else {
            out.push(ids[i]);
            i += 1;
            assert(rest.skip(1) =~= ids@.skip(i as int));
        }
        assert(out@ + merge_pass(ids@.skip(i as int), rule) =~= merge_pass(ids@, rule));
    }
    assert(out@ + merge_pass(ids@.skip(i as int), rule) =~= out@);
    out
}

/// A pass never lengthens the sequence, and leaves one symbol at least of a
/// sequence that has any.
pub proof fn lemma_merge_pass_len(ids: Seq<u32>, rule: MergeRule)
    ensures
        merge_pass(ids, rule).len() <= ids.len(),
        ids.len() > 0 ==> merge_pass(ids, rule).len() > 0,
    decreases ids.len(),
{
    if ids.len() >= 2 {
        if ids[0] == rule.left && ids[1] == rule.right {
            lemma_merge_pass_len(ids.skip(2), rule);
        } else {
            lemma_merge_pass_len(ids.skip(1), rule);
        }
    }
}

/// A pass over a sequence in which the rule's pair starts at position `at`
/// shortens the sequence.
pub proof fn lemma_merge_pass_shrinks(ids: Seq<u32>, rule: MergeRule, at: int)
    requires
        0 <= at,
        at + 1 < ids.len(),
        ids[at] == rule.left,
        ids[at + 1] == rule.right,
    ensures
        merge_pass(ids, rule).len() < ids.len(),
    decreases ids.len(),
{
    if ids[0] == rule.left && ids[1] == rule.right {
        lemma_merge_pass_len(ids.skip(2), rule);
    } else {
        lemma_merge_pass_shrinks(ids.skip(1), rule, at - 1);
    }
}

/// A pass emits only symbols of its input and the rule's new id: a bound on
/// both bounds the output.
pub proof fn lemma_merge_pass_bound(ids: Seq<u32>, rule: MergeRule, bound: int)
    requires
        forall|i: int| 0 <= i < ids.len() ==> ids[i] < bound,
        rule.new_id < bound,
    ensures
        forall|i: int|
            0 <= i < merge_pass(ids, rule).len() ==> (#[trigger] merge_pass(ids, rule)[i]) < bound,
    decreases ids.len(),
{
    if ids.len() >= 2 {
        let rest = if ids[0] == rule.left && ids[1] == rule.right {
            ids.skip(2)
        } else {
            ids.skip(1)
        };
        lemma_merge_pass_bound(rest, rule, bound);
        let out = merge_pass(ids, rule);
        assert forall|i: int| 0 <= i < out.len() implies (#[trigger] out[i]) < bound by {
            if i > 0 {
                assert(out[i] == merge_pass(rest, rule)[i - 1]);
            }
        }
    }
}

/// A pass of a rule whose pair stands nowhere in the sequence changes
/// nothing.
pub proof fn lemma_merge_pass_idle(ids: Seq<u32>, rule: MergeRule)
    requires
        pair_absent(ids, (rule.left, rule.right)),
    ensures
        merge_pass(ids, rule) == ids,
    decreases ids.len(),
{
    if ids.len() >= 2 {
        let rest = ids.skip(1);
        assert forall|i: int| 0 <= i && i + 1 < rest.len() implies #[trigger] window(rest, i) != (
            rule.left,
            rule.right,
        ) by {
            assert(window(rest, i) == window(ids, i + 1));
        }
        lemma_merge_pass_idle(rest, rule);
        assert(window(ids, 0) != (rule.left, rule.right));
        assert(seq![ids[0]] + rest =~= ids);
    }
}

/// Where no rule's pair stands anywhere in the sequence, replaying the rules
/// returns the sequence unchanged.
pub proof fn lemma_apply_rules_idle(ids: Seq<u32>, rules: Seq<MergeRule>)
    requires
        forall|k: int|
            0 <= k < rules.len() ==> pair_absent(ids, ((#[trigger] rules[k]).left, rules[k].right)),
    ensures
        apply_rules(ids, rules) == ids,
    decreases rules.len(),
{
    if rules.len() > 0 {
        let earlier = rules.drop_last();
        assert forall|k: int| 0 <= k < earlier.len() implies pair_absent(
            ids,
            ((#[trigger] earlier[k]).left, earlier[k].right),
        ) by {
            assert(earlier[k] == rules[k]);
        }
        lemma_apply_rules_idle(ids, earlier);
        assert(rules[rules.len() - 1] == rules.last());
        lemma_merge_pass_idle(ids, rules.last());
    }
}

/// Two neighbours in the output of a pass that are both old symbols were
/// neighbours in its input, and were not the rule's pair there: the lemma
/// returns the position in `ids` of the pair that stands at `at` in the
/// output.
pub proof fn lemma_merge_pass_neighbours(ids: Seq<u32>, rule: MergeRule, at: int) -> (from: int)
    requires
        0 <= at,
        at + 1 < merge_pass(ids, rule).len(),
        merge_pass(ids, rule)[at] != rule.new_id,
        merge_pass(ids, rule)[at + 1] != rule.new_id,
    ensures
        0 <= from,
        from + 1 < ids.len(),
        ids[from] == merge_pass(ids, rule)[at],
        ids[from + 1] == merge_pass(ids, rule)[at + 1],
        !(ids[from] == rule.left && ids[from + 1] == rule.right),
    decreases ids.len(),
{
    lemma_merge_pass_len(ids, rule);
    if ids[0] == rule.left && ids[1] == rule.right {
        let rest = ids.skip(2);
        assert(merge_pass(ids, rule)[at] == merge_pass(rest, rule)[at - 1]);
        assert(merge_pass(ids, rule)[at + 1] == merge_pass(rest, rule)[at]);
        lemma_merge_pass_neighbours(rest, rule, at - 1) + 2
    } else {
        let rest = ids.skip(1);
        assert(merge_pass(ids, rule)[at + 1] == merge_pass(rest, rule)[at]);
        if at == 0 {
            lemma_merge_pass_len(rest, rule);
            if rest.len() >= 2 && !(rest[0] == rule.left && rest[1] == rule.right) {
                assert(merge_pass(rest, rule)[0] == rest[0]);
            }
            0
        } else {
            assert(merge_pass(ids, rule)[at] == merge_pass(rest, rule)[at - 1]);
            lemma_merge_pass_neighbours(rest, rule, at - 1) + 1
        }
    }
}

/// Replaying a concatenation of rules is replaying its first part, then its
/// second on the result.
pub proof fn lemma_apply_rules_concat(ids: Seq<u32>, first: Seq<MergeRule>, second: Seq<MergeRule>)
    ensures
        apply_rules(ids, first + second) == apply_rules(apply_rules(ids, first), second),
    decreases second.len(),
{
    if second.len() == 0 {
        assert(first + second =~= first);
    } else {
        lemma_apply_rules_concat(ids, first, second.drop_last());
        assert((first + second).drop_last() =~= first + second.drop_last());
    }
}

/// Replaying a single rule is one pass of it.
pub proof fn lemma_apply_rules_one(ids: Seq<u32>, rule: MergeRule)
    ensures
        apply_rules(ids, seq![rule]) == merge_pass(ids, rule),
{
    assert(seq![rule].drop_last() =~= Seq::<MergeRule>::empty());
    assert(apply_rules(ids, Seq::<MergeRule>::empty()) == ids);
}

/// Replaying more of the rules never lengthens the result: the result of
/// the first `more` rules is no longer than that of the first `fewer`.
pub proof fn lemma_apply_rules_len(ids: Seq<u32>, rules: Seq<MergeRule>, fewer: int, more: int)
    requires
        0 <= fewer <= more <= rules.len(),
    ensures
        apply_rules(ids, rules.take(more)).len() <= apply_rules(ids, rules.take(fewer)).len(),
    decreases more - fewer,
{
    if fewer < more {
        lemma_apply_rules_len(ids, rules, fewer, more - 1);
        assert(rules.take(more).drop_last() =~= rules.take(more - 1));
        lemma_merge_pass_len(apply_rules(ids, rules.take(more - 1)), rules[more - 1]);
    }
}

/// A prefix of well-formed rules is well formed.
pub proof fn lemma_rules_wf_prefix(rules: Seq<MergeRule>, k: int)
    requires
        rules_wf(rules),
        0 <= k <= rules.len(),
    ensures
        rules_wf(rules.take(k)),
{
    assert forall|i: int| 0 <= i < rules.take(k).len() implies rule_fits(
        #[trigger] rules.take(k)[i],
        i,
    ) by {
        assert(rule_fits(rules[i], i));
    }
}

} // verus!
