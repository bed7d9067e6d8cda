use indexmap::IndexMap;
use thoth::utils::{
    count_common_encoded_tuples, merge, most_frequent_pair, render_token,
    replace_control_characters,
};

#[test]
fn count_pairs_of_short_sequences() {
    assert!(count_common_encoded_tuples(vec![]).is_empty());
    assert!(count_common_encoded_tuples(vec![7]).is_empty());
}

#[test]
fn count_pairs_counts_every_window() {
    let counts = count_common_encoded_tuples(vec![1, 2, 1, 2, 2, 2]);
    let entries: Vec<((usize, usize), usize)> = counts.iter().map(|(k, v)| (*k, *v)).collect();
    assert_eq!(entries, vec![((1, 2), 2), ((2, 1), 1), ((2, 2), 2)]);
}

#[test]
fn count_pairs_aaab() {
    let counts = count_common_encoded_tuples(vec![97, 97, 97, 98]);
    assert_eq!(counts.len(), 2);
    assert_eq!(counts.get(&(97, 97)), Some(&2));
    assert_eq!(counts.get(&(97, 98)), Some(&1));
    assert_eq!(counts.get(&(98, 97)), None);
}

#[test]
fn most_frequent_pair_of_empty_table() {
    let counts: IndexMap<(usize, usize), usize> = IndexMap::new();
    assert_eq!(most_frequent_pair(&counts), None);
}

#[test]
fn most_frequent_pair_prefers_count_then_pair() {
    let mut counts: IndexMap<(usize, usize), usize> = IndexMap::new();
    counts.insert((9, 9), 2);
    counts.insert((5, 6), 3);
    counts.insert((5, 4), 3);
    counts.insert((1, 1), 1);
    counts.insert((7, 0), 3);
    assert_eq!(most_frequent_pair(&counts), Some(((5, 4), 3)));
    let counts = count_common_encoded_tuples(vec![3, 4, 1, 2, 3, 4, 1, 2]);
    assert_eq!(most_frequent_pair(&counts), Some(((1, 2), 2)));
}

#[test]
fn merge_replaces_every_occurrence() {
    assert_eq!(merge((1, 2), vec![1, 2, 1, 2, 3], 9), vec![9, 9, 3]);
    assert_eq!(merge((97, 97), vec![97, 97, 97, 98], 256), vec![256, 97, 98]);
}

#[test]
fn merge_does_not_overlap() {
    assert_eq!(merge((1, 1), vec![1, 1, 1], 9), vec![9, 1]);
    assert_eq!(merge((1, 1), vec![1, 1, 1, 1], 9), vec![9, 9]);
    assert_eq!(merge((1, 1), vec![2, 1, 1, 1, 1, 1], 9), vec![2, 9, 9, 1]);
}

#[test]
fn merge_without_occurrence() {
    assert_eq!(merge((1, 2), vec![], 9), Vec::<usize>::new());
    assert_eq!(merge((1, 2), vec![1], 9), vec![1]);
    assert_eq!(merge((1, 2), vec![2, 1, 3, 2], 9), vec![2, 1, 3, 2]);
}

#[test]
fn control_characters_are_escaped() {
    assert_eq!(replace_control_characters("a\nb"), "a\\u{000a}b");
    assert_eq!(replace_control_characters("\u{0}"), "\\u{0000}");
    assert_eq!(replace_control_characters("\u{1f}\u{7f}"), "\\u{001f}\\u{007f}");
    assert_eq!(replace_control_characters("\u{80}\u{9f}"), "\\u{0080}\\u{009f}");
}

#[test]
fn other_characters_are_kept() {
    assert_eq!(replace_control_characters(""), "");
    assert_eq!(replace_control_characters("plain text ~"), "plain text ~");
    assert_eq!(replace_control_characters(" \u{a0}é日😀"), " \u{a0}é日😀");
}

#[test]
fn render_token_reads_and_escapes() {
    assert_eq!(render_token(b"hi"), "hi");
    assert_eq!(render_token(b"hi\n"), "hi\\u{000a}");
    assert_eq!(render_token(&[0xe6, 0x97, 0xa5, 0x1b]), "日\\u{001b}");
}

#[test]
fn render_token_replaces_ill_formed_bytes() {
    assert_eq!(render_token(&[0xff]), "\u{fffd}");
    assert_eq!(render_token(&[b'a', 0xe6, 0x97]), "a\u{fffd}");
}
