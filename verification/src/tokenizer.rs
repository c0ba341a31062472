//! The tokenizer: learned merge rules and the vocabulary they imply.

use crate::merge::{
    apply_rules, byte_ids, bytes_to_ids, has_pair, lemma_apply_rules_len, lemma_rules_wf_prefix,
    merge_pair, merge_pass, pairs_distinct, rule_fits, rules_wf, MergeRule,
};
use crate::pairs::most_frequent_pair;
use crate::training::{
    ids_suffice, learned_rules, lemma_learned_stops_early, lemma_trained_rules_wf, rule_for,
    trained_rules,
};
use crate::text::{decoded_text, lossy_text, text_from_bytes};
use crate::vocab::{
    base_table, base_vocab, expand, expansions, lemma_replay_domain, lemma_replay_size,
    replay_vocab,
};
use std::collections::HashMap;
use vstd::prelude::*;
use vstd::utf8::encode_utf8;

verus! {

/// A byte-pair-encoding tokenizer.
pub struct Tokenizer {
    /// The learned rules, in learning order.
    merges: Vec<MergeRule>,
    /// The byte expansion of every known id.
    vocab: HashMap<u32, Vec<u8>>,
    /// The id that the next learned rule would get.
    next_id: u32,
}

/// The mathematical content of a tokenizer.
pub struct TokenizerView {
    /// The learned rules, in learning order.
    pub merges: Seq<MergeRule>,
    /// The byte expansion of every known id.
    pub vocab: Map<u32, Seq<u8>>,
    /// The id that the next learned rule would get.
    pub next_id: u32,
}

impl TokenizerView {
    /// The rules are in learning order with consecutive ids from 256, no
    /// two of them are for the same pair, the vocabulary is the one that
    /// replaying them builds, and the id counter stands just past the last
    /// rule.
    pub open spec fn wf(self) -> bool {
        &&& rules_wf(self.merges)
        &&& pairs_distinct(self.merges)
        &&& self.vocab == replay_vocab(self.merges)
        &&& self.next_id == 256 + self.merges.len()
    }
}

impl View for Tokenizer {
    type V = TokenizerView;

    closed spec fn view(&self) -> TokenizerView {
        TokenizerView {
            merges: self.merges@,
            vocab: expansions(self.vocab@),
            next_id: self.next_id,
        }
    }
}

impl Tokenizer {
    /// Whether the tokenizer's rules, vocabulary and id counter agree.
    pub open spec fn wf(&self) -> bool {
        self@.wf()
    }

    /// A tokenizer that has learned nothing: no rules, and the vocabulary of
    /// the 256 single bytes.
    pub fn new() -> (tokenizer: Self)
        ensures
            tokenizer@.merges == Seq::<MergeRule>::empty(),
            tokenizer@.vocab == base_vocab(),
            tokenizer@.next_id == 256,
            tokenizer.wf(),
    {
        Tokenizer { merges: Vec::new(), vocab: base_table(), next_id: 256 }
    }

    /// The learned rules, in learning order.
    pub fn merges(&self) -> (rules: &Vec<MergeRule>)
        ensures
            rules@ == self@.merges,
    {
        &self.merges
    }

    /// The vocabulary: the byte expansion of every known id.
    pub fn vocab(&self) -> (table: &HashMap<u32, Vec<u8>>)
        ensures
            expansions(table@) == self@.vocab,
    {
        &self.vocab
    }

    /// The id that the next learned rule would get.
    pub fn next_id(&self) -> (id: u32)
        ensures
            id == self@.next_id,
    {
        self.next_id
    }

    /// The number of entries of the vocabulary.
    pub fn vocab_size(&self) -> (size: usize)
        ensures
            size == self@.vocab.dom().len(),
    {
        assert(expansions(self.vocab@).dom() =~= self.vocab@.dom());
        self.vocab.len()
    }

    /// The id that the rules give the pair `(left, right)`: that of the
    /// first rule for the pair, or none where no rule is for it.
    pub fn merged_id(&self, left: u32, right: u32) -> (id: Option<u32>)
        ensures
            match id {
                Some(id) => exists|i: int|
                    {
                        &&& 0 <= i < self@.merges.len()
                        &&& #[trigger] self@.merges[i] == (MergeRule { left, right, new_id: id })
                        &&& forall|j: int|
                            0 <= j < i ==> !has_pair(#[trigger] self@.merges[j], left, right)
                    },
                None => forall|i: int|
                    0 <= i < self@.merges.len() ==> !has_pair(
                        #[trigger] self@.merges[i],
                        left,
                        right,
                    ),
            },
    {
        let mut k: usize = 0;
        while k < self.merges.len()
            invariant
                k <= self.merges.len(),
                forall|i: int| 0 <= i < k ==> !has_pair(#[trigger] self.merges@[i], left, right),
            decreases self.merges.len() - k,
        {
            let rule = self.merges[k];
            if rule.left == left && rule.right == right {
                assert(self@.merges[k as int] == (MergeRule { left, right, new_id: rule.new_id }));
                return Some(rule.new_id);
            }
            k += 1;
        }
        None
    }

    /// Learns merge rules from `data` in up to `num_merges` rounds, and
    /// rebuilds the vocabulary from them.
    ///
    /// Training starts from the raw bytes and from id 256: whatever the
    /// tokenizer had learned before is replaced. Each round selects the most
    /// frequent adjacent pair of the current token sequence (among equally
    /// frequent pairs the lexicographically smallest), records a rule for it
    /// under the next id, and rewrites the sequence with one pass of that
    /// rule. Rounds stop early once fewer than two symbols remain.
    pub fn train_from_bytes(&mut self, data: &[u8], num_merges: usize)
        requires
            ids_suffice(data@.len(), num_merges as nat),
        ensures
            final(self)@.merges == trained_rules(data@, num_merges as nat),
            final(self)@.merges.len() <= num_merges,
            final(self)@.merges.len() == num_merges || apply_rules(
                byte_ids(data@),
                final(self)@.merges,
            ).len() < 2,
            forall|i: int|
                0 <= i < final(self)@.merges.len() ==> (#[trigger] final(self)@.merges[i]).new_id
                    == 256 + i,
            final(self)@.vocab == replay_vocab(final(self)@.merges),
            final(self)@.vocab.dom().len() == 256 + final(self)@.merges.len(),
            final(self)@.next_id == 256 + final(self)@.merges.len(),
            final(self).wf(),
    {
        let mut ids: Vec<u32> = bytes_to_ids(data);
        let mut rules: Vec<MergeRule> = Vec::new();
        let mut next_id: u32 = 256;
        let mut round: usize = 0;
        proof {
            lemma_trained_rules_wf(data@, num_merges as nat);
            assert(rules@ + learned_rules(ids@, 256, num_merges as nat) =~= trained_rules(
                data@,
                num_merges as nat,
            ));
        }
        while round < num_merges
            invariant
                round <= num_merges,
                rules@.len() == round,
                next_id == 256 + round,
                rules_wf(trained_rules(data@, num_merges as nat)),
                rules@ + learned_rules(ids@, next_id as nat, (num_merges - round) as nat)
                    == trained_rules(data@, num_merges as nat),
            ensures
                rules@ == trained_rules(data@, num_merges as nat),
                next_id == 256 + rules@.len(),
            decreases num_merges - round,
        {
            let pair = match most_frequent_pair(&ids) {
                Some(pair) => pair,
                None => {
                    assert(rules@ + Seq::<MergeRule>::empty() =~= rules@);
                    break;
                },
            };
            let rule = MergeRule { left: pair.0, right: pair.1, new_id: next_id };
            let ghost learned = rules@;
            let ghost rest = learned_rules(
                merge_pass(ids@, rule),
                (next_id + 1) as nat,
                (num_merges - round - 1) as nat,
            );
            assert(rule == rule_for(pair, next_id));
            assert(learned.len() + 1 + rest.len() == trained_rules(data@, num_merges as nat).len());
            rules.push(rule);
            ids = merge_pair(&ids, rule);
            next_id += 1;
            round += 1;
            assert(rules@ + rest =~= learned + (seq![rule] + rest));
        }
        proof {
            lemma_learned_stops_early(byte_ids(data@), 256, num_merges as nat);
            lemma_replay_size(rules@);
            assert forall|i: int| 0 <= i < rules@.len() implies (#[trigger] rules@[i]).new_id == 256
                + i by {
                assert(rule_fits(rules@[i], i));
            }
        }
        self.merges = rules;
        self.next_id = next_id;
        self.rebuild_vocab();
    }

    /// Rebuilds the vocabulary from the rules: the base entries, then one
    /// entry per rule, replayed in learning order, so that the constituents
    /// of each rule are resolved before the rule is.
    fn rebuild_vocab(&mut self)
        requires
            rules_wf(old(self)@.merges),
        ensures
            final(self)@.merges == old(self)@.merges,
            final(self)@.next_id == old(self)@.next_id,
            final(self)@.vocab == replay_vocab(old(self)@.merges),
    {
        self.vocab = base_table();
        let mut k: usize = 0;
        assert(self.merges@.take(0) =~= Seq::<MergeRule>::empty());
        while k < self.merges.len()
            invariant
                k <= self.merges.len(),
                self.merges == old(self).merges,
                self.next_id == old(self).next_id,
                rules_wf(self.merges@),
                expansions(self.vocab@) == replay_vocab(self.merges@.take(k as int)),
            decreases self.merges.len() - k,
        {
            let rule = self.merges[k];
            let ghost earlier = expansions(self.vocab@);
            proof {
                lemma_rules_wf_prefix(self.merges@, k as int);
                lemma_replay_domain(self.merges@.take(k as int));
                assert(rule_fits(self.merges@[k as int], k as int));
                assert(earlier.contains_key(rule.left));
                assert(earlier.contains_key(rule.right));
            }
            let mut combined: Vec<u8> = self.vocab.get(&rule.left).unwrap().clone();
            combined.extend_from_slice(self.vocab.get(&rule.right).unwrap().as_slice());
            assert(combined@ =~= earlier[rule.left] + earlier[rule.right]);
            self.vocab.insert(rule.new_id, combined);
            k += 1;
            proof {
                assert(self.merges@.take(k as int).drop_last() =~= self.merges@.take(k - 1));
                assert(expansions(self.vocab@) =~= replay_vocab(self.merges@.take(k as int)));
            }
        }
        assert(self.merges@.take(k as int) =~= self.merges@);
    }

    /// Encodes raw bytes: one base id per byte, then one pass of every
    /// learned rule, in learning order, each over the whole output of the
    /// pass before.
    pub fn encode_bytes(&self, bytes: &[u8]) -> (ids: Vec<u32>)
        ensures
            ids@ == apply_rules(byte_ids(bytes@), self@.merges),
            ids@.len() <= bytes@.len(),
    {
        let mut ids: Vec<u32> = bytes_to_ids(bytes);
        let mut k: usize = 0;
        assert(self.merges@.take(0) =~= Seq::<MergeRule>::empty());
        while k < self.merges.len()
            invariant
                k <= self.merges.len(),
                ids@ == apply_rules(byte_ids(bytes@), self.merges@.take(k as int)),
            decreases self.merges.len() - k,
        {
            ids = merge_pair(&ids, self.merges[k]);
            k += 1;
            assert(self.merges@.take(k as int).drop_last() =~= self.merges@.take(k - 1));
        }
        proof {
            assert(self.merges@.take(k as int) =~= self.merges@);
            lemma_apply_rules_len(byte_ids(bytes@), self.merges@, 0, k as int);
        }
        ids
    }

    /// Encodes `text`: the ids of its UTF-8 bytes, rewritten by every learned
    /// rule in learning order.
    pub fn encode(&self, text: &str) -> (ids: Vec<u32>)
        ensures
            ids@ == apply_rules(byte_ids(encode_utf8(text@)), self@.merges),
            ids@.len() <= encode_utf8(text@).len(),
    {
        self.encode_bytes(text.as_bytes())
    }

    /// The bytes that `ids` stand for: the expansion of each known id, in
    /// order. An id that the vocabulary does not know contributes nothing.
    pub fn decode_bytes(&self, ids: &[u32]) -> (bytes: Vec<u8>)
        ensures
            bytes@ == expand(self@.vocab, ids@),
    {
        let mut bytes: Vec<u8> = Vec::new();
        let mut i: usize = 0;
        assert(ids@.take(0) =~= Seq::<u32>::empty());
        while i < ids.len()
            invariant
                i <= ids.len(),
                bytes@ == expand(expansions(self.vocab@), ids@.take(i as int)),
            decreases ids.len() - i,
        {
            let ghost before = bytes@;
            match self.vocab.get(&ids[i]) {
                Some(token_bytes) => {
                    bytes.extend_from_slice(token_bytes.as_slice());
                    assert(bytes@ =~= before + token_bytes@);
                },
                None => {
                    assert(bytes@ =~= before + Seq::<u8>::empty());
                },
            }
            i += 1;
            assert(ids@.take(i as int).drop_last() =~= ids@.take(i - 1));
        }
        assert(ids@.take(i as int) =~= ids@);
        bytes
    }

    /// Decodes `ids` to text: the bytes they stand for, read as UTF-8. Bytes
    /// that are no valid UTF-8 are rendered with the replacement character
    /// rather than refused.
    pub fn decode(&self, ids: &[u32]) -> (text: String)
        ensures
            text@ == decoded_text(expand(self@.vocab, ids@)),
            text@ == lossy_text(expand(self@.vocab, ids@)),
    {
        let bytes = self.decode_bytes(ids);
        text_from_bytes(&bytes)
    }
}

} // verus!
