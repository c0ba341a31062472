//! Laws of the tokenizer: what holds of every corpus, text and budget.

use crate::merge::{
    apply_rules, byte_ids, lemma_apply_rules_idle, lemma_apply_rules_len, merge_pass, rule_fits,
    rules_wf, MergeRule,
};
use crate::pairs::pair_absent;
use crate::text::decoded_text;
use crate::tokenizer::Tokenizer;
use crate::training::{
    lemma_learned_extends, lemma_learned_len, lemma_learned_stops_early,
    lemma_replay_reproduces_training, trained_rules, trained_tokens,
};
use crate::vocab::{
    entry_or_empty, expand, has_base_entries, lemma_expand_concat, lemma_expand_one,
    lemma_replay_base_entry, lemma_replay_domain, lemma_replay_rule_entry, lemma_replay_size,
    replay_vocab,
};
use vstd::prelude::*;
use vstd::utf8::{encode_utf8, encode_utf8_decode_utf8, encode_utf8_valid_utf8};

verus! {

/// A pass of a rule leaves the bytes that a sequence stands for unchanged,
/// provided the vocabulary expands the rule's id to the expansions of its
/// two constituents.
pub proof fn lemma_merge_pass_keeps_bytes(vocab: Map<u32, Seq<u8>>, ids: Seq<u32>, rule: MergeRule)
    requires
        entry_or_empty(vocab, rule.new_id) == entry_or_empty(vocab, rule.left) + entry_or_empty(
            vocab,
            rule.right,
        ),
    ensures
        expand(vocab, merge_pass(ids, rule)) == expand(vocab, ids),
    decreases ids.len(),
{
    if ids.len() >= 2 {
        if ids[0] == rule.left && ids[1] == rule.right {
            let rest = ids.skip(2);
            lemma_merge_pass_keeps_bytes(vocab, rest, rule);
            lemma_expand_concat(vocab, seq![rule.new_id], merge_pass(rest, rule));
            lemma_expand_one(vocab, rule.new_id);
            assert(ids =~= (seq![ids[0]] + seq![ids[1]]) + rest);
            lemma_expand_concat(vocab, seq![ids[0]] + seq![ids[1]], rest);
            lemma_expand_concat(vocab, seq![ids[0]], seq![ids[1]]);
            lemma_expand_one(vocab, ids[0]);
            lemma_expand_one(vocab, ids[1]);
        } else {
            let rest = ids.skip(1);
            lemma_merge_pass_keeps_bytes(vocab, rest, rule);
            lemma_expand_concat(vocab, seq![ids[0]], merge_pass(rest, rule));
            assert(ids =~= seq![ids[0]] + rest);
            lemma_expand_concat(vocab, seq![ids[0]], rest);
        }
    }
}

/// Base ids stand for their own bytes, in a vocabulary that holds the base
/// entries.
pub proof fn lemma_byte_ids_expand(vocab: Map<u32, Seq<u8>>, bytes: Seq<u8>)
    requires
        has_base_entries(vocab),
    ensures
        expand(vocab, byte_ids(bytes)) == bytes,
    decreases bytes.len(),
{
    if bytes.len() == 0 {
        assert(expand(vocab, byte_ids(bytes)) =~= bytes);
    } else {
        lemma_byte_ids_expand(vocab, bytes.drop_last());
        assert(byte_ids(bytes).drop_last() =~= byte_ids(bytes.drop_last()));
        let id = byte_ids(bytes).last();
        assert(id == bytes.last() as u32);
        assert(vocab.contains_key(id));
        assert(expand(vocab, byte_ids(bytes)) =~= bytes);
    }
}

/// Replaying a prefix of well-formed rules over raw bytes yields a sequence
/// that, in the vocabulary of all the rules, still stands for those bytes.
proof fn lemma_prefix_keeps_bytes(rules: Seq<MergeRule>, k: int, bytes: Seq<u8>)
    requires
        rules_wf(rules),
        0 <= k <= rules.len(),
    ensures
        expand(replay_vocab(rules), apply_rules(byte_ids(bytes), rules.take(k))) == bytes,
    decreases k,
{
    let vocab = replay_vocab(rules);
    lemma_replay_domain(rules);
    if k == 0 {
        assert(rules.take(0) =~= Seq::<MergeRule>::empty());
        assert forall|id: u32| id < 256 implies #[trigger] vocab.contains_key(id) && vocab[id]
            == seq![id as u8] by {
            lemma_replay_base_entry(rules, id);
        }
        lemma_byte_ids_expand(vocab, bytes);
    } else {
        lemma_prefix_keeps_bytes(rules, k - 1, bytes);
        let rule = rules[k - 1];
        assert(rules.take(k).drop_last() =~= rules.take(k - 1));
        assert(rules.take(k).last() == rule);
        assert(rule_fits(rule, k - 1));
        lemma_replay_rule_entry(rules, k - 1);
        lemma_merge_pass_keeps_bytes(vocab, apply_rules(byte_ids(bytes), rules.take(k - 1)), rule);
    }
}

/// Round trip on bytes: decoding what encoding made of any bytes gives the
/// bytes back.
pub proof fn lemma_round_trip_bytes(tokenizer: Tokenizer, bytes: Seq<u8>)
    requires
        tokenizer.wf(),
    ensures
        expand(tokenizer@.vocab, apply_rules(byte_ids(bytes), tokenizer@.merges)) == bytes,
{
    let rules = tokenizer@.merges;
    lemma_prefix_keeps_bytes(rules, rules.len() as int, bytes);
    assert(rules.take(rules.len() as int) =~= rules);
}

/// Round trip on text: decoding what encoding made of any text gives the
/// text back.
pub proof fn lemma_round_trip(tokenizer: Tokenizer, text: Seq<char>)
    requires
        tokenizer.wf(),
    ensures
        decoded_text(
            expand(tokenizer@.vocab, apply_rules(byte_ids(encode_utf8(text)), tokenizer@.merges)),
        ) == text,
{
    lemma_round_trip_bytes(tokenizer, encode_utf8(text));
    encode_utf8_valid_utf8(text);
    encode_utf8_decode_utf8(text);
}

/// Merging never adds tokens: training for more rounds on a corpus never
/// lengthens the encoding of a text, and no encoding has more tokens than
/// the text has bytes.
pub proof fn lemma_more_rounds_never_lengthen(
    corpus: Seq<u8>,
    fewer: nat,
    more: nat,
    text: Seq<u8>,
)
    requires
        fewer <= more,
    ensures
        apply_rules(byte_ids(text), trained_rules(corpus, more)).len() <= apply_rules(
            byte_ids(text),
            trained_rules(corpus, fewer),
        ).len(),
        apply_rules(byte_ids(text), trained_rules(corpus, fewer)).len() <= text.len(),
{
    let short = trained_rules(corpus, fewer);
    let long = trained_rules(corpus, more);
    lemma_learned_extends(byte_ids(corpus), 256, fewer, more);
    lemma_apply_rules_len(byte_ids(text), long, short.len() as int, long.len() as int);
    lemma_apply_rules_len(byte_ids(text), long, 0, short.len() as int);
    assert(long.take(long.len() as int) =~= long);
    assert(long.take(0) =~= Seq::<MergeRule>::empty());
}

/// Text to which no rule applies is encoded as its raw bytes: where the pair
/// of no rule stands anywhere among the base ids of `bytes`, encoding leaves
/// those ids unchanged.
pub proof fn lemma_unmatched_text_stays_raw(tokenizer: Tokenizer, bytes: Seq<u8>)
    requires
        forall|k: int|
            0 <= k < tokenizer@.merges.len() ==> pair_absent(
                byte_ids(bytes),
                ((#[trigger] tokenizer@.merges[k]).left, tokenizer@.merges[k].right),
            ),
    ensures
        apply_rules(byte_ids(bytes), tokenizer@.merges) == byte_ids(bytes),
{
    lemma_apply_rules_idle(byte_ids(bytes), tokenizer@.merges);
}

/// Encoding the corpus that a tokenizer was trained on reproduces the token
/// sequence that training ended with.
pub proof fn lemma_encoding_replays_training(corpus: Seq<u8>, budget: nat)
    ensures
        apply_rules(byte_ids(corpus), trained_rules(corpus, budget)) == trained_tokens(
            byte_ids(corpus),
            256,
            budget,
        ),
{
    lemma_replay_reproduces_training(byte_ids(corpus), 256, budget);
}

/// Training runs no more rounds than its budget, and runs all of them unless
/// it stopped early because fewer than two symbols of the corpus remained.
pub proof fn lemma_rounds_within_budget(corpus: Seq<u8>, budget: nat)
    ensures
        trained_rules(corpus, budget).len() <= budget,
        trained_rules(corpus, budget).len() == budget || apply_rules(
            byte_ids(corpus),
            trained_rules(corpus, budget),
        ).len() < 2,
{
    lemma_learned_len(byte_ids(corpus), 256, budget);
    lemma_learned_stops_early(byte_ids(corpus), 256, budget);
}

/// The vocabulary has exactly one entry for each base id and one for each
/// learned rule: `256 + merges.len()` entries, those of the ids below that
/// number.
pub proof fn lemma_vocab_size(tokenizer: Tokenizer)
    requires
        tokenizer.wf(),
    ensures
        forall|id: u32| #[trigger]
            tokenizer@.vocab.contains_key(id) <==> id < 256 + tokenizer@.merges.len(),
        tokenizer@.vocab.dom().finite(),
        tokenizer@.vocab.dom().len() == 256 + tokenizer@.merges.len(),
{
    lemma_replay_domain(tokenizer@.merges);
    lemma_replay_size(tokenizer@.merges);
}

/// Every composite entry of the vocabulary is the concatenation of the
/// entries of its two constituents, so its length is the sum of theirs.
pub proof fn lemma_composite_is_concatenation(tokenizer: Tokenizer, i: int)
    requires
        tokenizer.wf(),
        0 <= i < tokenizer@.merges.len(),
    ensures
        tokenizer@.vocab.contains_key(tokenizer@.merges[i].new_id),
        tokenizer@.vocab.contains_key(tokenizer@.merges[i].left),
        tokenizer@.vocab.contains_key(tokenizer@.merges[i].right),
        tokenizer@.vocab[tokenizer@.merges[i].new_id] == tokenizer@.vocab[tokenizer@.merges[i].left]
            + tokenizer@.vocab[tokenizer@.merges[i].right],
        tokenizer@.vocab[tokenizer@.merges[i].new_id].len()
            == tokenizer@.vocab[tokenizer@.merges[i].left].len()
            + tokenizer@.vocab[tokenizer@.merges[i].right].len(),
{
    let rules = tokenizer@.merges;
    assert(rule_fits(rules[i], i));
    lemma_replay_domain(rules);
    lemma_replay_rule_entry(rules, i);
}

/// Rule ids follow the learning order without gaps: rule number `i` has the
/// id `256 + i`, so a rule learned later has the larger id.
pub proof fn lemma_rule_ids_consecutive(tokenizer: Tokenizer, i: int, j: int)
    requires
        tokenizer.wf(),
        0 <= i <= j < tokenizer@.merges.len(),
    ensures
        tokenizer@.merges[i].new_id == 256 + i,
        tokenizer@.merges[j].new_id == 256 + j,
        i < j ==> tokenizer@.merges[i].new_id < tokenizer@.merges[j].new_id,
{
    assert(rule_fits(tokenizer@.merges[i], i));
    assert(rule_fits(tokenizer@.merges[j], j));
}

} // verus!
