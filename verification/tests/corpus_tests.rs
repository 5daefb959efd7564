use keygen::corpus_manager::{
    batch_parse_ngram_list, corpus_lines, generate_ngram_list, generate_ngram_relation_list, merge_ngram_lists,
    normalize_ngram_list, parse_ngram_list, prepare_ngram_list, NgramList, NgramListRelation,
    NgramListRelationMapping, SwapCharList,
};

fn s(x: &str) -> String {
    x.to_string()
}

#[test]
fn prepare_counts_words_of_each_line() {
    let list = prepare_ngram_list(&s("the cat\r\nthe dog\n"), SwapCharList::new(), &s(" "), 4);
    assert_eq!(list.gram, 4);
    assert_eq!(list.map.len(), 3);
    assert_eq!(list.map.get("the"), Some(2));
    assert_eq!(list.map.get("cat"), Some(1));
    assert_eq!(list.map.get("dog"), Some(1));
    assert_eq!(list.map.get(""), None);
}

#[test]
fn prepare_keeps_empty_words_between_separators() {
    let list = prepare_ngram_list(&s("a  b"), SwapCharList::new(), &s(" "), 4);
    assert_eq!(list.map.get("a"), Some(1));
    assert_eq!(list.map.get(""), Some(1));
    assert_eq!(list.map.get("b"), Some(1));
}

#[test]
fn prepare_skips_words_beyond_128() {
    let list = prepare_ngram_list(&s("naïve word"), SwapCharList::new(), &s(" "), 4);
    assert_eq!(list.map.get("naïve"), None);
    assert_eq!(list.map.get("word"), Some(1));
}

#[test]
fn prepare_windows_leave_out_the_last() {
    let list = prepare_ngram_list(&s("abcd"), SwapCharList::new(), &s(""), 2);
    assert_eq!(list.gram, 2);
    assert_eq!(list.map.len(), 2);
    assert_eq!(list.map.get("ab"), Some(1));
    assert_eq!(list.map.get("bc"), Some(1));
    assert_eq!(list.map.get("cd"), None);
}

#[test]
fn prepare_windows_see_crlf_as_one_newline() {
    let list = prepare_ngram_list(&s("a\r\nbc"), SwapCharList::new(), &s(""), 2);
    assert_eq!(list.map.get("a\n"), Some(1));
    assert_eq!(list.map.get("\nb"), Some(1));
    assert_eq!(list.map.get("\r\n"), None);
}

#[test]
fn prepare_applies_swaps() {
    let mut swaps = SwapCharList::new();
    swaps.insert('x', 'y');
    assert_eq!(swaps.get('x'), Some('y'));
    assert_eq!(swaps.get('y'), None);
    let list = prepare_ngram_list(&s("xx yx"), swaps, &s(" "), 4);
    assert_eq!(list.map.get("yy"), Some(2));
    assert_eq!(list.map.get("xx"), None);
}

#[test]
fn swap_list_last_insert_wins() {
    let mut swaps = SwapCharList::new();
    swaps.insert('a', 'b');
    swaps.insert('a', 'c');
    assert_eq!(swaps.get('a'), Some('c'));
}

#[test]
fn lines_follow_str_lines() {
    let ls = corpus_lines(&s("one\r\ntwo\n\nthree\r"));
    assert_eq!(ls, vec![s("one"), s("two"), s(""), s("three\r")]);
    let ls = corpus_lines(&s("a\r\r\n"));
    assert_eq!(ls, vec![s("a")]);
    assert!(corpus_lines(&s("")).is_empty());
}

#[test]
fn generate_counts_lower_case_letter_windows() {
    let list = generate_ngram_list(vec![s("Hello"), s("hi"), s("naïve"), s("a-bcd")], 3);
    assert_eq!(list.gram, 3);
    assert_eq!(list.map.get("hel"), Some(1));
    assert_eq!(list.map.get("ell"), Some(1));
    assert_eq!(list.map.get("llo"), None);
    assert_eq!(list.map.get("hi"), None);
    assert_eq!(list.map.get("bcd"), None);
    assert_eq!(list.map.get("a-b"), None);
    assert_eq!(list.map.len(), 2);
}

#[test]
fn generate_never_counts_short_words() {
    let list = generate_ngram_list(vec![s("a"), s("ab"), s("to")], 3);
    assert_eq!(list.map.len(), 0);
}

#[test]
fn parse_adds_counts_per_key() {
    let list = parse_ngram_list(&s("the\t10\r\nand\t5\nthe\t3\n"), &s("\t"), true, 7);
    assert_eq!(list.map.get("the"), Some(13));
    assert_eq!(list.map.get("and"), Some(5));
    assert_eq!(list.gram, 3);
}

#[test]
fn parse_counts_unparsable_as_zero() {
    let list = parse_ngram_list(&s("ab 1x\ncd +7\nef -2\ngh 99999999999999999999999"), &s(" "), false, 2);
    assert_eq!(list.map.get("ab"), Some(0));
    assert_eq!(list.map.get("cd"), Some(7));
    assert_eq!(list.map.get("ef"), Some(0));
    assert_eq!(list.map.get("gh"), Some(0));
    assert_eq!(list.gram, 2);
}

#[test]
fn parse_gram_is_byte_length_of_first_key() {
    let list = parse_ngram_list(&s("é\t1\n"), &s("\t"), true, 9);
    assert_eq!(list.gram, 2);
    assert_eq!(list.map.get("é"), None);
}

#[test]
fn parse_without_separator_counts_nothing() {
    let list = parse_ngram_list(&s("abc\t1\n"), &s(""), true, 4);
    assert_eq!(list.map.len(), 0);
    assert_eq!(list.gram, 4);
}

#[test]
fn batch_counts_all_corpora_together() {
    let list = batch_parse_ngram_list(vec![s("a b"), s("b c\r\nb")], &s(" "), 3);
    assert_eq!(list.gram, 0);
    assert_eq!(list.map.get("a"), Some(1));
    assert_eq!(list.map.get("b"), Some(3));
    assert_eq!(list.map.get("c"), Some(1));
    let windows = batch_parse_ngram_list(vec![s("abc"), s("abd")], &s(""), 2);
    assert_eq!(windows.map.get("ab"), Some(2));
    assert_eq!(windows.map.get("bc"), None);
}

#[test]
fn normalize_spreads_counts_over_windows() {
    let mut list = NgramList::new();
    list.add_sized(s("abcd"), 2);
    list.add_sized(s("bcx"), 3);
    list.add(s("a"));
    let (normalized, missed) = normalize_ngram_list(list, 2);
    assert_eq!(missed, 1);
    assert_eq!(normalized.gram, 2);
    assert_eq!(normalized.map.get("ab"), Some(2));
    assert_eq!(normalized.map.get("bc"), Some(5));
    assert_eq!(normalized.map.get("cd"), None);
    assert_eq!(normalized.map.get("cx"), None);
}

#[test]
fn merge_sums_counts() {
    let mut first = NgramList::new();
    first.add_sized(s("ab"), 2);
    first.add(s("cd"));
    let mut second = NgramList::new();
    second.add_sized(s("ab"), 5);
    second.add(s("ef"));
    let merged = merge_ngram_lists(vec![first, second]);
    assert_eq!(merged.gram, 0);
    assert_eq!(merged.map.get("ab"), Some(7));
    assert_eq!(merged.map.get("cd"), Some(1));
    assert_eq!(merged.map.get("ef"), Some(1));
    assert_eq!(merged.map.len(), 3);
}

#[test]
fn add_and_add_sized_accumulate() {
    let mut list = NgramList::new();
    list.add(s("th"));
    list.add(s("th"));
    list.add_sized(s("th"), 10);
    assert_eq!(list.map.get("th"), Some(12));
    let (key, count) = list.map.entry_at(0);
    assert_eq!(key, "th");
    assert_eq!(count, 12);
}

#[test]
fn relation_new_has_no_followers() {
    let rel = NgramListRelation::new(s("the"), 4);
    assert_eq!(rel.ngram, "the");
    assert_eq!(rel.frequency, 4);
    assert_eq!(rel.after_map.map.len(), 0);
}

#[test]
fn relation_add_records_trigrams_and_followers() {
    let mut mapping = NgramListRelationMapping::new();
    mapping.add(s("there is"));
    let the = mapping.ngrams.get("the").unwrap();
    assert_eq!(the.frequency, 1);
    assert_eq!(the.after_map.map.get("ere"), Some(1));
    assert_eq!(the.after_map.map.len(), 1);
    let re = mapping.ngrams.get("re ").unwrap();
    assert_eq!(re.after_map.map.get(" is"), Some(1));
    let ei = mapping.ngrams.get("e i").unwrap();
    assert_eq!(ei.frequency, 1);
    assert_eq!(ei.after_map.map.len(), 0);
    let tail = mapping.ngrams.get("is ").unwrap();
    assert_eq!(tail.frequency, 1);
    assert_eq!(mapping.ngrams.len(), 7);
    assert_eq!(mapping.gram, 0);
}

#[test]
fn relation_add_lower_cases_letters_only() {
    let mut mapping = NgramListRelationMapping::new();
    mapping.add(s("ABC"));
    mapping.add(s("A-C"));
    assert_eq!(mapping.ngrams.get("abc").unwrap().frequency, 1);
    assert!(mapping.ngrams.get("ABC").is_none());
    assert!(mapping.ngrams.get("A-C").is_none());
    assert!(mapping.ngrams.get("a-c").is_none());
}

#[test]
fn relation_add_pads_short_text() {
    let mut mapping = NgramListRelationMapping::new();
    mapping.add(s("A"));
    assert_eq!(mapping.ngrams.get("a  ").unwrap().frequency, 1);
    assert_eq!(mapping.ngrams.get("   ").unwrap().frequency, 1);
    assert_eq!(mapping.ngrams.len(), 2);
}

#[test]
fn relation_remove_non_alpha_keeps_letters() {
    let mut mapping = NgramListRelationMapping::new();
    mapping.add(s("ab1"));
    mapping.add(s("abc"));
    assert_eq!(mapping.ngrams.len(), 1);
    mapping.remove_non_alpha();
    assert_eq!(mapping.ngrams.len(), 1);
    assert_eq!(mapping.ngrams.get("abc").unwrap().frequency, 1);
}

#[test]
fn relation_list_skips_short_words() {
    let mapping = generate_ngram_relation_list(vec![s("hi"), s("hello")], 3);
    assert!(mapping.ngrams.get("hi ").is_none());
    assert_eq!(mapping.ngrams.get("hel").unwrap().frequency, 1);
    assert_eq!(mapping.ngrams.get("hel").unwrap().after_map.map.len(), 0);
    assert_eq!(mapping.ngrams.len(), 3);
}

#[test]
fn merge_order_does_not_matter() {
    let build = |pairs: &[(&str, usize)]| {
        let mut list = NgramList::new();
        for (k, n) in pairs {
            list.add_sized(s(k), *n);
        }
        list
    };
    let one = merge_ngram_lists(vec![build(&[("ab", 2), ("cd", 1)]), build(&[("ab", 5), ("ef", 3)]), build(&[("cd", 4)])]);
    let other = merge_ngram_lists(vec![build(&[("cd", 4)]), build(&[("ab", 5), ("ef", 3)]), build(&[("ab", 2), ("cd", 1)])]);
    assert_eq!(one.map.len(), other.map.len());
    for key in ["ab", "cd", "ef", "gh"] {
        assert_eq!(one.map.get(key), other.map.get(key));
    }
    assert_eq!(one.map.get("ab"), Some(7));
    assert_eq!(one.map.get("cd"), Some(5));
    assert!(merge_ngram_lists(Vec::new()).map.len() == 0);
}

#[test]
fn batch_is_the_sum_of_single_corpora() {
    let corpora = vec![s("a b a"), s("b c\r\nb")];
    let batch = batch_parse_ngram_list(corpora.clone(), &s(" "), 3);
    let singles: Vec<NgramList> =
        corpora.iter().map(|c| prepare_ngram_list(c, SwapCharList::new(), &s(" "), 3)).collect();
    for key in ["a", "b", "c", "d"] {
        let sum: usize = singles.iter().map(|l| l.map.get(key).unwrap_or(0)).sum();
        assert_eq!(batch.map.get(key).unwrap_or(0), sum);
        let held = singles.iter().any(|l| l.map.get(key).is_some());
        assert_eq!(batch.map.get(key).is_some(), held);
    }
    assert_eq!(batch.map.get("b"), Some(3));
}

#[test]
fn relation_list_is_repeated_add() {
    let corpus = vec![s("hi"), s("hello"), s("the end"), s("ox")];
    let listed = generate_ngram_relation_list(corpus.clone(), 3);
    let mut added = NgramListRelationMapping::new();
    for item in corpus.iter().filter(|w| w.chars().count() >= 3) {
        added.add(item.clone());
    }
    assert_eq!(listed.ngrams.len(), added.ngrams.len());
    for i in 0..added.ngrams.len() {
        let rel = added.ngrams.entry_at(i);
        let other = listed.ngrams.get(&rel.ngram).unwrap();
        assert_eq!(other.frequency, rel.frequency);
        assert_eq!(other.after_map.map.len(), rel.after_map.map.len());
    }
}

#[test]
fn windows_are_taken_by_byte_offsets() {
    // the ranges 0..2 and 1..3 fall on character boundaries before the 'é'
    let list = prepare_ngram_list(&s("abc\u{e9}"), SwapCharList::new(), &s(""), 2);
    assert_eq!(list.map.len(), 2);
    assert_eq!(list.map.get("ab"), Some(1));
    assert_eq!(list.map.get("bc"), Some(1));
    let fit: Vec<char> = "abc\u{e9}".chars().collect();
    assert_eq!(keygen::text::byte_window_ranges(&fit, 2), Some(vec![(0, 2), (1, 3)]));
    // byte 1 falls inside the 'é'
    let split: Vec<char> = "\u{e9}abc".chars().collect();
    assert_eq!(keygen::text::byte_window_ranges(&split, 2), None);
    // the range 0..4 holds the 'é' and two letters
    let two: Vec<char> = "\u{e9}abcd".chars().collect();
    assert_eq!(keygen::text::byte_window_ranges(&two, 4), Some(vec![(0, 3)]));
    let one: Vec<char> = "\u{e9}a".chars().collect();
    assert_eq!(keygen::text::byte_window_ranges(&one, 1), None);
    // the range 0..2 holds the whole 'é'
    let whole: Vec<char> = "\u{e9}ab".chars().collect();
    assert_eq!(keygen::text::byte_window_ranges(&whole, 2), Some(vec![(0, 1)]));
    // fewer characters than the window
    assert_eq!(keygen::text::byte_window_ranges(&fit, 5), None);
}

#[test]
fn normalize_takes_windows_by_byte_offsets() {
    let mut list = NgramList::new();
    list.add_sized(s("abc\u{e9}"), 3);
    list.add_sized(s("x"), 1);
    let (normalized, missed) = normalize_ngram_list(list, 2);
    assert_eq!(missed, 1);
    assert_eq!(normalized.map.get("ab"), Some(3));
    assert_eq!(normalized.map.get("bc"), Some(3));
    assert_eq!(normalized.map.len(), 2);
}
