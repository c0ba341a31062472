use bpe::Tokenizer;

const CORPUS: &str = "the cat sat on the mat; the rat sat on the hat. a cat, a rat, a hat, a mat!";

fn trained(corpus: &[u8], budget: usize) -> Tokenizer {
    let mut tokenizer = Tokenizer::new();
    tokenizer.train_from_bytes(corpus, budget);
    tokenizer
}

#[test]
fn more_rounds_never_lengthen_an_encoding() {
    let texts = ["the cat", "that hat", "", "zzz", CORPUS];
    for text in texts {
        let mut previous = text.len();
        for budget in 0..40usize {
            let tokenizer = trained(CORPUS.as_bytes(), budget);
            let len = tokenizer.encode(text).len();
            assert!(len <= previous, "budget {budget}: {len} > {previous}");
            previous = len;
        }
    }
}

#[test]
fn a_larger_budget_extends_the_rules() {
    let long = trained(CORPUS.as_bytes(), 30);
    for budget in 0..30usize {
        let short = trained(CORPUS.as_bytes(), budget);
        assert_eq!(short.merges().as_slice(), &long.merges()[..short.merges().len()]);
    }
}

#[test]
fn decode_inverts_encode() {
    let texts = ["", "a", "the cat sat", "héllo wörld ✓ 日本語", "never seen: QXZ\n\t\0", CORPUS];
    for budget in [0usize, 1, 5, 20, 200] {
        let tokenizer = trained(CORPUS.as_bytes(), budget);
        for text in texts {
            assert_eq!(tokenizer.decode(&tokenizer.encode(text)), text);
        }
    }
}

#[test]
fn decode_bytes_inverts_encode_bytes() {
    let tokenizer = trained(&[0, 255, 0, 255, 128, 0, 255, 128], 4);
    let inputs: [&[u8]; 4] = [&[], &[255], &[0, 255, 128, 7], &[0, 255, 0, 255, 128, 0, 255, 128]];
    for bytes in inputs {
        assert_eq!(tokenizer.decode_bytes(&tokenizer.encode_bytes(bytes)), bytes);
    }
}

#[test]
fn vocabulary_has_one_entry_per_base_id_and_rule() {
    for budget in [0usize, 1, 7, 25, 10_000] {
        let tokenizer = trained(CORPUS.as_bytes(), budget);
        let rounds = tokenizer.merges().len();
        assert!(rounds <= budget);
        assert_eq!(tokenizer.vocab().len(), 256 + rounds);
        assert_eq!(tokenizer.vocab_size(), 256 + rounds);
        assert_eq!(tokenizer.next_id() as usize, 256 + rounds);
        for id in 0..(256 + rounds) as u32 {
            assert!(tokenizer.vocab().contains_key(&id));
        }
        assert!(!tokenizer.vocab().contains_key(&((256 + rounds) as u32)));
    }
}

#[test]
fn budget_is_used_up_unless_training_stopped_early() {
    let tokenizer = trained(CORPUS.as_bytes(), 10);
    assert_eq!(tokenizer.merges().len(), 10);
    let tokenizer = trained(CORPUS.as_bytes(), 10_000);
    assert!(tokenizer.merges().len() < CORPUS.len());
    assert_eq!(tokenizer.encode(CORPUS).len(), 1);
}

#[test]
fn composite_entries_are_concatenations() {
    let tokenizer = trained(CORPUS.as_bytes(), 30);
    assert_eq!(tokenizer.merges().len(), 30);
    for rule in tokenizer.merges() {
        let whole = &tokenizer.vocab()[&rule.new_id];
        let left = &tokenizer.vocab()[&rule.left];
        let right = &tokenizer.vocab()[&rule.right];
        assert_eq!(whole.len(), left.len() + right.len());
        assert_eq!(whole, &[left.as_slice(), right.as_slice()].concat());
    }
}

#[test]
fn rule_ids_are_consecutive_from_256() {
    let tokenizer = trained(CORPUS.as_bytes(), 40);
    for (i, rule) in tokenizer.merges().iter().enumerate() {
        assert_eq!(rule.new_id as usize, 256 + i);
        assert!((rule.left as usize) < 256 + i);
        assert!((rule.right as usize) < 256 + i);
    }
}

#[test]
fn no_pair_is_learned_twice() {
    let tokenizer = trained(CORPUS.as_bytes(), 10_000);
    let rules = tokenizer.merges();
    for i in 0..rules.len() {
        for j in 0..i {
            assert!((rules[i].left, rules[i].right) != (rules[j].left, rules[j].right));
        }
        assert_eq!(tokenizer.merged_id(rules[i].left, rules[i].right), Some(rules[i].new_id));
    }
}

#[test]
fn training_is_deterministic() {
    let first = trained(CORPUS.as_bytes(), 25);
    let second = trained(CORPUS.as_bytes(), 25);
    assert_eq!(first.merges(), second.merges());
    assert_eq!(first.encode(CORPUS), second.encode(CORPUS));
}
