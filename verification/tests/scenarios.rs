use bpe::merge::{bytes_to_ids, merge_pair};
use bpe::pairs::{count_pairs, most_frequent_pair, pack_pair};
use bpe::{MergeRule, Tokenizer};

fn trained(corpus: &[u8], budget: usize) -> Tokenizer {
    let mut tokenizer = Tokenizer::new();
    tokenizer.train_from_bytes(corpus, budget);
    tokenizer
}

#[test]
fn new_tokenizer_has_base_vocabulary_and_no_rules() {
    let tokenizer = Tokenizer::new();
    assert!(tokenizer.merges().is_empty());
    assert_eq!(tokenizer.vocab().len(), 256);
    assert_eq!(tokenizer.vocab_size(), 256);
    assert_eq!(tokenizer.next_id(), 256);
    for id in 0..256u32 {
        assert_eq!(tokenizer.vocab().get(&id), Some(&vec![id as u8]));
    }
    assert_eq!(tokenizer.vocab().get(&256), None);
}

#[test]
fn four_equal_bytes_one_round() {
    let ids = bytes_to_ids(b"aaaa");
    assert_eq!(ids, vec![97, 97, 97, 97]);
    let counts = count_pairs(&ids);
    assert_eq!(counts.len(), 1);
    assert_eq!(counts.get(&pack_pair(97, 97)), Some(&3));
    assert_eq!(most_frequent_pair(&ids), Some((97, 97)));

    let tokenizer = trained(b"aaaa", 1);
    assert_eq!(tokenizer.merges(), &vec![MergeRule { left: 97, right: 97, new_id: 256 }]);
    assert_eq!(tokenizer.merged_id(97, 97), Some(256));
    assert_eq!(tokenizer.encode("aaaa"), vec![256, 256]);
    assert_eq!(tokenizer.vocab().get(&256), Some(&vec![97, 97]));
    assert_eq!(tokenizer.next_id(), 257);
}

#[test]
fn two_bytes_stop_after_one_round() {
    for budget in [1usize, 2, 3, 10, 1000] {
        let tokenizer = trained(b"ab", budget);
        assert_eq!(tokenizer.merges(), &vec![MergeRule { left: 97, right: 98, new_id: 256 }]);
        assert_eq!(tokenizer.encode("ab"), vec![256]);
        assert_eq!(tokenizer.vocab_size(), 257);
    }
}

#[test]
fn empty_inputs_give_empty_outputs() {
    let tokenizer = Tokenizer::new();
    assert_eq!(tokenizer.encode(""), Vec::<u32>::new());
    assert_eq!(tokenizer.decode(&[]), "");
    let tokenizer = trained(b"abab", 2);
    assert_eq!(tokenizer.encode(""), Vec::<u32>::new());
    assert_eq!(tokenizer.decode(&[]), "");
}

#[test]
fn unknown_id_is_skipped() {
    let tokenizer = Tokenizer::new();
    assert_eq!(tokenizer.decode(&[999]), "");
    assert_eq!(tokenizer.decode_bytes(&[999]), Vec::<u8>::new());
    assert_eq!(tokenizer.decode(&[104, 999, 105, 256]), "hi");
}

#[test]
fn zero_budget_learns_nothing() {
    let tokenizer = trained(b"abababab", 0);
    assert!(tokenizer.merges().is_empty());
    assert_eq!(tokenizer.vocab_size(), 256);
    assert_eq!(tokenizer.encode("abab"), vec![97, 98, 97, 98]);
}

#[test]
fn empty_and_single_byte_corpus_learn_nothing() {
    assert!(trained(b"", 5).merges().is_empty());
    assert!(trained(b"a", 5).merges().is_empty());
    assert_eq!(trained(b"a", 5).next_id(), 256);
}

#[test]
fn overlapping_windows_are_all_counted() {
    let ids = bytes_to_ids(b"aaa");
    let counts = count_pairs(&ids);
    assert_eq!(counts.get(&pack_pair(97, 97)), Some(&2));
    let rule = MergeRule { left: 97, right: 97, new_id: 256 };
    assert_eq!(merge_pair(&ids, rule), vec![256, 97]);
}

#[test]
fn odd_run_leaves_one_symbol_over() {
    let rule = MergeRule { left: 97, right: 97, new_id: 256 };
    assert_eq!(merge_pair(&bytes_to_ids(b"aaaaa"), rule), vec![256, 256, 97]);
    assert_eq!(merge_pair(&bytes_to_ids(b"aaaaaa"), rule), vec![256, 256, 256]);
    assert_eq!(merge_pair(&bytes_to_ids(b"baaab"), rule), vec![98, 256, 97, 98]);
}

#[test]
fn pass_on_short_or_unmatched_input_changes_nothing() {
    let rule = MergeRule { left: 97, right: 98, new_id: 300 };
    assert_eq!(merge_pair(&vec![], rule), Vec::<u32>::new());
    assert_eq!(merge_pair(&vec![97], rule), vec![97]);
    assert_eq!(merge_pair(&vec![98, 97], rule), vec![98, 97]);
    assert_eq!(merge_pair(&vec![97, 98], rule), vec![300]);
    assert_eq!(merge_pair(&vec![97, 97, 98, 98], rule), vec![97, 300, 98]);
}

#[test]
fn no_pair_in_fewer_than_two_symbols() {
    assert_eq!(most_frequent_pair(&vec![]), None);
    assert_eq!(most_frequent_pair(&vec![7]), None);
    assert_eq!(most_frequent_pair(&vec![7, 9]), Some((7, 9)));
    assert!(count_pairs(&vec![]).is_empty());
    assert!(count_pairs(&vec![7]).is_empty());
}

#[test]
fn ties_go_to_the_lexicographically_smallest_pair() {
    // (c,d), (d,a) and (a,b) all occur once.
    assert_eq!(most_frequent_pair(&bytes_to_ids(b"cdab")), Some((97, 98)));
    // (b,a) and (a,b) occur twice each in "babab"; (a,b) is the smaller.
    assert_eq!(most_frequent_pair(&bytes_to_ids(b"babab")), Some((97, 98)));
    // Same first symbol: the smaller second symbol wins.
    assert_eq!(most_frequent_pair(&vec![5, 9, 0, 5, 3]), Some((0, 5)));
    assert_eq!(most_frequent_pair(&vec![5, 9, 7, 5, 3]), Some((5, 3)));
    let tokenizer = trained(b"cdab", 1);
    assert_eq!(tokenizer.merges(), &vec![MergeRule { left: 97, right: 98, new_id: 256 }]);
}

#[test]
fn higher_count_beats_smaller_pair() {
    // (z,z) occurs three times, (a,b) once.
    assert_eq!(most_frequent_pair(&bytes_to_ids(b"abzzzz")), Some((122, 122)));
}

#[test]
fn pair_keys_are_distinct_and_exact() {
    assert_eq!(pack_pair(0, 0), 0);
    assert_eq!(pack_pair(0, 1), 1);
    assert_eq!(pack_pair(1, 0), 4294967296);
    assert_eq!(pack_pair(97, 98), 97 * 4294967296 + 98);
    assert_eq!(pack_pair(u32::MAX, u32::MAX), u64::MAX);
}

#[test]
fn rounds_build_on_earlier_rounds() {
    let tokenizer = trained(b"abababab", 10);
    assert_eq!(
        tokenizer.merges(),
        &vec![
            MergeRule { left: 97, right: 98, new_id: 256 },
            MergeRule { left: 256, right: 256, new_id: 257 },
            MergeRule { left: 257, right: 257, new_id: 258 },
        ]
    );
    assert_eq!(tokenizer.vocab().get(&256), Some(&b"ab".to_vec()));
    assert_eq!(tokenizer.vocab().get(&257), Some(&b"abab".to_vec()));
    assert_eq!(tokenizer.vocab().get(&258), Some(&b"abababab".to_vec()));
    assert_eq!(tokenizer.vocab().get(&259), None);
    assert_eq!(tokenizer.encode("abababab"), vec![258]);
    assert_eq!(tokenizer.encode("ababab"), vec![257, 256]);
    assert_eq!(tokenizer.encode("xab"), vec![120, 256]);
    assert_eq!(tokenizer.decode(&[258, 256, 97]), "abababababa");
    assert_eq!(tokenizer.merged_id(256, 256), Some(257));
    assert_eq!(tokenizer.merged_id(98, 97), None);
}

#[test]
fn budget_limits_the_rounds() {
    let tokenizer = trained(b"abababab", 2);
    assert_eq!(tokenizer.merges().len(), 2);
    assert_eq!(tokenizer.encode("abababab"), vec![257, 257]);
    assert_eq!(tokenizer.vocab_size(), 258);
}

#[test]
fn training_again_starts_from_scratch() {
    let mut tokenizer = trained(b"aaaa", 1);
    tokenizer.train_from_bytes(b"bbbb", 1);
    assert_eq!(tokenizer.merges(), &vec![MergeRule { left: 98, right: 98, new_id: 256 }]);
    assert_eq!(tokenizer.encode("aaaa"), vec![97, 97, 97, 97]);
    assert_eq!(tokenizer.encode("bbbb"), vec![256, 256]);
    assert_eq!(tokenizer.vocab().get(&256), Some(&vec![98, 98]));
    assert_eq!(tokenizer.vocab_size(), 257);
}

#[test]
fn text_without_applicable_merges_stays_raw() {
    let tokenizer = trained(b"abababab", 3);
    assert_eq!(tokenizer.encode("xyz"), vec![120, 121, 122]);
    assert_eq!(tokenizer.encode("ba"), vec![98, 97]);
}

#[test]
fn encode_works_on_utf8_bytes() {
    let tokenizer = Tokenizer::new();
    assert_eq!(tokenizer.encode("é"), vec![0xC3, 0xA9]);
    assert_eq!(tokenizer.encode_bytes(&[0xFF, 0x00]), vec![255, 0]);
}

#[test]
fn decode_renders_invalid_bytes_with_replacement_character() {
    let tokenizer = Tokenizer::new();
    assert_eq!(tokenizer.decode(&[255]), "\u{FFFD}");
    assert_eq!(tokenizer.decode(&[104, 255, 105]), "h\u{FFFD}i");
    assert_eq!(tokenizer.decode(&[0xC3]), "\u{FFFD}");
    assert_eq!(tokenizer.decode(&[0xC3, 0xA9]), "é");
    assert_eq!(tokenizer.decode_bytes(&[0xC3, 0xA9]), vec![0xC3, 0xA9]);
}
