use bpe::{MergeRule, Tokenizer};
use std::collections::BTreeMap;

/// A plain restatement of one substitution pass.
fn plain_pass(ids: &[u32], rule: &MergeRule) -> Vec<u32> {
    let mut out = Vec::new();
    let mut i = 0;
    while i < ids.len() {
        if i + 1 < ids.len() && ids[i] == rule.left && ids[i + 1] == rule.right {
            out.push(rule.new_id);
            i += 2;
        } else {
            out.push(ids[i]);
            i += 1;
        }
    }
    out
}

/// A plain restatement of training: an ordered map walks the pairs in
/// lexicographic order, and only a strictly higher count replaces the best.
fn plain_train(corpus: &[u8], budget: usize) -> (Vec<MergeRule>, Vec<u32>) {
    let mut ids: Vec<u32> = corpus.iter().map(|&b| b as u32).collect();
    let mut rules = Vec::new();
    let mut next_id = 256u32;
    for _ in 0..budget {
        let mut counts: BTreeMap<(u32, u32), usize> = BTreeMap::new();
        for pair in ids.windows(2) {
            *counts.entry((pair[0], pair[1])).or_insert(0) += 1;
        }
        let mut best: Option<((u32, u32), usize)> = None;
        for (&pair, &count) in &counts {
            if best.map_or(true, |(_, most)| count > most) {
                best = Some((pair, count));
            }
        }
        let Some((pair, _)) = best else {
            break;
        };
        let rule = MergeRule { left: pair.0, right: pair.1, new_id: next_id };
        ids = plain_pass(&ids, &rule);
        rules.push(rule);
        next_id += 1;
    }
    (rules, ids)
}

fn plain_vocab(rules: &[MergeRule]) -> BTreeMap<u32, Vec<u8>> {
    let mut vocab = BTreeMap::new();
    for id in 0..256u32 {
        vocab.insert(id, vec![id as u8]);
    }
    for rule in rules {
        let mut bytes = vocab[&rule.left].clone();
        bytes.extend_from_slice(&vocab[&rule.right]);
        vocab.insert(rule.new_id, bytes);
    }
    vocab
}

/// Bytes from a small alphabet, so that pairs repeat and counts tie.
fn sample(seed: u64, len: usize, alphabet: u64) -> Vec<u8> {
    let mut state = seed;
    let mut bytes = Vec::with_capacity(len);
    for _ in 0..len {
        state = state.wrapping_mul(6364136223846793005).wrapping_add(1442695040888963407);
        bytes.push(b'a' + ((state >> 33) % alphabet) as u8);
    }
    bytes
}

#[test]
fn training_agrees_with_plain_restatement() {
    for seed in 0..40u64 {
        let corpus = sample(seed, 10 + (seed as usize * 7) % 150, 2 + seed % 5);
        for budget in [0usize, 1, 2, 5, 20, 400] {
            let (rules, tokens) = plain_train(&corpus, budget);
            let mut tokenizer = Tokenizer::new();
            tokenizer.train_from_bytes(&corpus, budget);
            assert_eq!(tokenizer.merges(), &rules, "seed {seed}, budget {budget}");
            assert_eq!(tokenizer.encode_bytes(&corpus), tokens, "seed {seed}, budget {budget}");
            assert_eq!(tokenizer.next_id() as usize, 256 + rules.len());
        }
    }
}

#[test]
fn vocabulary_agrees_with_plain_restatement() {
    for seed in 0..20u64 {
        let corpus = sample(seed + 100, 120, 3);
        let mut tokenizer = Tokenizer::new();
        tokenizer.train_from_bytes(&corpus, 50);
        let vocab = plain_vocab(tokenizer.merges());
        assert_eq!(tokenizer.vocab().len(), vocab.len());
        for (id, bytes) in &vocab {
            assert_eq!(tokenizer.vocab().get(id), Some(bytes));
        }
    }
}

#[test]
fn encoding_agrees_with_plain_restatement() {
    let corpus = sample(7, 200, 4);
    let mut tokenizer = Tokenizer::new();
    tokenizer.train_from_bytes(&corpus, 30);
    for seed in 0..30u64 {
        let text = sample(seed + 500, (seed as usize * 3) % 60, 5);
        let mut ids: Vec<u32> = text.iter().map(|&b| b as u32).collect();
        for rule in tokenizer.merges() {
            ids = plain_pass(&ids, rule);
        }
        assert_eq!(tokenizer.encode_bytes(&text), ids);
        assert_eq!(tokenizer.decode_bytes(&ids), text);
        assert_eq!(tokenizer.decode(&ids).as_bytes(), text.as_slice());
    }
}
