use keygen::corpus_manager::NgramList;
use keygen::letters::letter_statistics;

fn sample() -> NgramList {
    let mut list = NgramList::new();
    list.add_sized("the".to_string(), 3);
    list.add_sized("her".to_string(), 2);
    list.add_sized("ere".to_string(), 1);
    list
}

#[test]
fn pairs_are_counted_once_per_trigram() {
    let stats = letter_statistics(&sample());
    assert_eq!(stats.bigrams.get("th"), Some(1));
    assert_eq!(stats.bigrams.get("he"), Some(2));
    assert_eq!(stats.bigrams.get("er"), Some(2));
    assert_eq!(stats.bigrams.get("re"), Some(1));
    assert_eq!(stats.bigrams.get("hr"), None);
    assert_eq!(stats.bigrams.len(), 4);
}

#[test]
fn letters_are_weighed_by_counts() {
    let stats = letter_statistics(&sample());
    // the: t+3, h+6, e+3; her: h+2, e+4, r+2; ere: e+1, r+2, e+1
    assert_eq!(stats.letters.get("t"), Some(3));
    assert_eq!(stats.letters.get("h"), Some(8));
    assert_eq!(stats.letters.get("e"), Some(9));
    assert_eq!(stats.letters.get("r"), Some(4));
    assert_eq!(stats.from_bigram_letters.get("t"), Some(3));
    assert_eq!(stats.from_bigram_letters.get("h"), Some(5));
    assert_eq!(stats.from_bigram_letters.get("e"), Some(3));
    assert_eq!(stats.from_bigram_letters.get("r"), Some(1));
    assert_eq!(stats.to_bigram_letters.get("h"), Some(3));
    assert_eq!(stats.to_bigram_letters.get("e"), Some(6));
    assert_eq!(stats.to_bigram_letters.get("r"), Some(3));
    assert_eq!(stats.to_bigram_letters.get("t"), None);
}

#[test]
fn distinct_pairs_give_letter_counts() {
    let stats = letter_statistics(&sample());
    // pairs: th 1, he 2, er 2, re 1
    assert_eq!(stats.unique_letters.get("t"), Some(1));
    assert_eq!(stats.unique_letters.get("h"), Some(2));
    assert_eq!(stats.unique_letters.get("e"), Some(3));
    assert_eq!(stats.unique_letters.get("r"), Some(2));
    assert_eq!(stats.from_letters.get("t"), Some(1));
    assert_eq!(stats.from_letters.get("h"), Some(2));
    assert_eq!(stats.from_letters.get("e"), Some(2));
    assert_eq!(stats.from_letters.get("r"), Some(1));
    assert_eq!(stats.to_letters.get("h"), Some(1));
    assert_eq!(stats.to_letters.get("e"), Some(3));
    assert_eq!(stats.to_letters.get("r"), Some(2));
}

fn total(map: &keygen::corpus_manager::NgramMap) -> usize {
    (0..map.len()).map(|i| map.entry_at(i).1).sum()
}

#[test]
fn letter_totals_follow_the_counts() {
    let stats = letter_statistics(&sample());
    // counts 3 + 2 + 1 = 6, three trigrams, four distinct pairs
    assert_eq!(total(&stats.bigrams), 6);
    assert_eq!(total(&stats.letters), 24);
    assert_eq!(total(&stats.from_bigram_letters), 12);
    assert_eq!(total(&stats.to_bigram_letters), 12);
    assert_eq!(total(&stats.unique_letters), 8);
    assert_eq!(total(&stats.from_letters), 6);
    assert_eq!(total(&stats.to_letters), 6);
}
