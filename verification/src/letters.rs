//! How the letters of a trigram list are used: the pairs of letters that the
//! trigrams hold, how often each letter is typed, and how often it starts or
//! ends a pair of letters.
use vstd::prelude::*;
use crate::layout::code;
use crate::corpus_manager::{NgramList, NgramMap, count_of, bump};
use crate::text::{chars_of, string_from_chars, sub_chars};

verus! {

/// Every key holds at least three characters, and its first three are ASCII.
pub open spec fn trigram_keys(ks: Seq<Seq<char>>) -> bool {
    forall|i: int|
        0 <= i < ks.len() ==> {
            &&& (#[trigger] ks[i]).len() >= 3
            &&& code(ks[i][0]) < 128
            &&& code(ks[i][1]) < 128
            &&& code(ks[i][2]) < 128
        }
}

/// The sum of the counts of the keys `ks`.
pub open spec fn weight_of(ks: Seq<Seq<char>>, m: Map<Seq<char>, int>) -> int
    decreases ks.len(),
{
    if ks.len() == 0 {
        0
    } else {
        weight_of(ks.drop_last(), m) + count_of(m, ks.last())
    }
}

/// For each key, its first two letters and its second and third letters,
/// each counted once.
pub open spec fn bigram_tally(ks: Seq<Seq<char>>) -> Map<Seq<char>, int>
    decreases ks.len(),
{
    if ks.len() == 0 {
        Map::empty()
    } else {
        let k = ks.last();
        bump(bump(bigram_tally(ks.drop_last()), k.subrange(0, 2), 1), k.subrange(1, 3), 1)
    }
}

/// For each key, each letter of its two pairs (the middle one twice), with
/// the key's count.
pub open spec fn letter_tally(ks: Seq<Seq<char>>, m: Map<Seq<char>, int>) -> Map<Seq<char>, int>
    decreases ks.len(),
{
    if ks.len() == 0 {
        Map::empty()
    } else {
        let k = ks.last();
        let n = count_of(m, k);
        bump(
            bump(bump(bump(letter_tally(ks.drop_last(), m), k.subrange(0, 1), n), k.subrange(1, 2), n), k.subrange(1, 2), n),
            k.subrange(2, 3),
            n,
        )
    }
}

/// For each key, the first letter of each of its two pairs, with the key's count.
pub open spec fn from_tally(ks: Seq<Seq<char>>, m: Map<Seq<char>, int>) -> Map<Seq<char>, int>
    decreases ks.len(),
{
    if ks.len() == 0 {
        Map::empty()
    } else {
        let k = ks.last();
        let n = count_of(m, k);
        bump(bump(from_tally(ks.drop_last(), m), k.subrange(0, 1), n), k.subrange(1, 2), n)
    }
}

/// For each key, the second letter of each of its two pairs, with the key's count.
pub open spec fn to_tally(ks: Seq<Seq<char>>, m: Map<Seq<char>, int>) -> Map<Seq<char>, int>
    decreases ks.len(),
{
    if ks.len() == 0 {
        Map::empty()
    } else {
        let k = ks.last();
        let n = count_of(m, k);
        bump(bump(to_tally(ks.drop_last(), m), k.subrange(1, 2), n), k.subrange(2, 3), n)
    }
}

/// Every count of `m` is at most `b`.
pub open spec fn counts_below(m: Map<Seq<char>, int>, b: int) -> bool {
    forall|k: Seq<char>| #[trigger] count_of(m, k) <= b
}

proof fn lemma_weight_prefix(ks: Seq<Seq<char>>, m: Map<Seq<char>, int>, i: int)
    requires
        0 <= i <= ks.len(),
        forall|k: Seq<char>| #[trigger] count_of(m, k) >= 0,
    ensures
        0 <= weight_of(ks.take(i), m) <= weight_of(ks, m),
    decreases ks.len() - i,
{
    if i < ks.len() {
        lemma_weight_prefix(ks, m, i + 1);
        assert(ks.take(i + 1).drop_last() =~= ks.take(i));
        assert(count_of(m, ks.take(i + 1).last()) >= 0);
        assert(weight_of(ks.take(i + 1), m) == weight_of(ks.take(i), m) + count_of(m, ks.take(i + 1).last()));
        lemma_weight_nonneg(ks.take(i), m);
    } else {
        assert(ks.take(i) =~= ks);
        lemma_weight_nonneg(ks, m);
    }
}

proof fn lemma_weight_nonneg(ks: Seq<Seq<char>>, m: Map<Seq<char>, int>)
    requires
        forall|k: Seq<char>| #[trigger] count_of(m, k) >= 0,
    ensures
        weight_of(ks, m) >= 0,
    decreases ks.len(),
{
    if ks.len() > 0 {
        lemma_weight_nonneg(ks.drop_last(), m);
        assert(count_of(m, ks.last()) >= 0);
    }
}

/// The text of the characters `from..to` of `chars`.
fn part(chars: &Vec<char>, from: usize, to: usize) -> (r: String)
    requires
        from <= to <= chars@.len(),
    ensures
        r@ == chars@.subrange(from as int, to as int),
{
    let v = sub_chars(chars.as_slice(), from, to);
    string_from_chars(v.as_slice())
}

proof fn lemma_bump_below(m: Map<Seq<char>, int>, x: Seq<char>, n: int, b: int)
    requires
        counts_below(m, b),
        0 <= n,
    ensures
        counts_below(bump(m, x, n), b + n),
{
    assert forall|k: Seq<char>| #[trigger] count_of(bump(m, x, n), k) <= b + n by {
        assert(count_of(m, k) <= b);
        assert(count_of(m, x) <= b);
    }
}

proof fn lemma_weight_other(ks: Seq<Seq<char>>, m: Map<Seq<char>, int>, x: Seq<char>, n: int)
    requires
        !ks.contains(x),
    ensures
        weight_of(ks, bump(m, x, n)) == weight_of(ks, m),
    decreases ks.len(),
{
    if ks.len() > 0 {
        assert(ks.last() != x) by {
            assert(ks[ks.len() - 1] == ks.last());
        }
        assert forall|j: int| 0 <= j < ks.drop_last().len() implies ks.drop_last()[j] != x by {
            assert(ks.drop_last()[j] == ks[j]);
        }
        lemma_weight_other(ks.drop_last(), m, x, n);
    }
}

proof fn lemma_weight_own(ks: Seq<Seq<char>>, m: Map<Seq<char>, int>, x: Seq<char>, n: int)
    requires
        ks.no_duplicates(),
        ks.contains(x),
    ensures
        weight_of(ks, bump(m, x, n)) == weight_of(ks, m) + n,
    decreases ks.len(),
{
    let u = ks.drop_last();
    if ks.last() == x {
        assert forall|j: int| 0 <= j < u.len() implies u[j] != x by {
            assert(u[j] == ks[j]);
            assert(ks[ks.len() - 1] == x);
        }
        lemma_weight_other(u, m, x, n);
    } else {
        let j = choose|j: int| 0 <= j < ks.len() && ks[j] == x;
        assert(j != ks.len() - 1);
        assert(u[j] == x);
        assert(u.no_duplicates()) by {
            assert forall|a: int, b: int| 0 <= a < u.len() && 0 <= b < u.len() && a != b implies u[a] != u[b] by {
                assert(u[a] == ks[a] && u[b] == ks[b]);
            }
        }
        lemma_weight_own(u, m, x, n);
    }
}

/// Adding `n` to the count of a key of a table adds `n` to the sum of its counts.
proof fn lemma_add_weight(keys0: Seq<Seq<char>>, m0: Map<Seq<char>, int>, x: Seq<char>, n: int)
    requires
        keys0.no_duplicates(),
        forall|k: Seq<char>| #[trigger] m0.contains_key(k) <==> keys0.contains(k),
    ensures
        weight_of(if m0.contains_key(x) { keys0 } else { keys0.push(x) }, bump(m0, x, n)) == weight_of(keys0, m0) + n,
{
    if m0.contains_key(x) {
        lemma_weight_own(keys0, m0, x, n);
    } else {
        lemma_weight_other(keys0, m0, x, n);
        let k1 = keys0.push(x);
        assert(k1.drop_last() =~= keys0);
        assert(count_of(bump(m0, x, n), x) == n);
    }
}

/// The conditions under which the letters of `ngram_list` can be counted:
/// every key has three ASCII letters first, and the counts fit in `usize`.
pub open spec fn countable_letters(ngram_list: NgramList) -> bool {
    &&& ngram_list.map.wf()
    &&& trigram_keys(ngram_list.map.keys())
    &&& 4 * weight_of(ngram_list.map.keys(), ngram_list.map@) <= usize::MAX
    &&& 4 * ngram_list.map.keys().len() <= usize::MAX
}

/// The pairs of letters of the keys, and the letters typed, started with and
/// ended with, weighed by the keys' counts.
fn pair_statistics(ngram_list: &NgramList) -> (r: (NgramMap, NgramMap, NgramMap, NgramMap))
    requires
        countable_letters(*ngram_list),
    ensures
        r.0.wf() && r.1.wf() && r.2.wf() && r.3.wf(),
        r.0@ == bigram_tally(ngram_list.map.keys()),
        r.1@ == letter_tally(ngram_list.map.keys(), ngram_list.map@),
        r.2@ == from_tally(ngram_list.map.keys(), ngram_list.map@),
        r.3@ == to_tally(ngram_list.map.keys(), ngram_list.map@),
        counts_below(r.0@, 2 * (ngram_list.map.keys().len() as int)),
        r.0.keys().len() <= 2 * ngram_list.map.keys().len(),
        weight_of(r.0.keys(), r.0@) == 2 * ngram_list.map.keys().len(),
        weight_of(r.1.keys(), r.1@) == 4 * weight_of(ngram_list.map.keys(), ngram_list.map@),
        weight_of(r.2.keys(), r.2@) == 2 * weight_of(ngram_list.map.keys(), ngram_list.map@),
        weight_of(r.3.keys(), r.3@) == 2 * weight_of(ngram_list.map.keys(), ngram_list.map@),
        forall|b: Seq<char>| #[trigger] r.0@.contains_key(b) ==> b.len() == 2,
{
    let map = &ngram_list.map;
    let ghost ks = map.keys();
    let ghost m = map@;
    proof {
        map.lemma_keys();
        assert forall|k: Seq<char>| #[trigger] count_of(m, k) >= 0 by {}
    }
    let mut bigrams = NgramMap::new();
    let mut letters = NgramMap::new();
    let mut from = NgramMap::new();
    let mut to = NgramMap::new();
    proof {
        assert(ks.take(0) =~= Seq::<Seq<char>>::empty());
    }
    let mut i: usize = 0;
    while i < map.len()
        invariant
            map.wf(),
            ks == map.keys(),
            m == map@,
            i <= ks.len(),
            trigram_keys(ks),
            4 * weight_of(ks, m) <= usize::MAX,
            4 * ks.len() <= usize::MAX,
            forall|k: Seq<char>| #[trigger] count_of(m, k) >= 0,
            bigrams.wf() && letters.wf() && from.wf() && to.wf(),
            bigrams@ == bigram_tally(ks.take(i as int)),
            letters@ == letter_tally(ks.take(i as int), m),
            from@ == from_tally(ks.take(i as int), m),
            to@ == to_tally(ks.take(i as int), m),
            counts_below(bigrams@, 2 * (i as int)),
            bigrams.keys().len() <= 2 * i,
            weight_of(bigrams.keys(), bigrams@) == 2 * i,
            forall|b: Seq<char>| #[trigger] bigrams@.contains_key(b) ==> b.len() == 2,
            counts_below(letters@, 4 * weight_of(ks.take(i as int), m)),
            weight_of(letters.keys(), letters@) == 4 * weight_of(ks.take(i as int), m),
            weight_of(from.keys(), from@) == 2 * weight_of(ks.take(i as int), m),
            weight_of(to.keys(), to@) == 2 * weight_of(ks.take(i as int), m),
            counts_below(from@, 2 * weight_of(ks.take(i as int), m)),
            counts_below(to@, 2 * weight_of(ks.take(i as int), m)),
        decreases ks.len() - i,
    {
        let (key, n) = map.entry_at(i);
        let ghost k = ks[i as int];
        let ghost w0 = weight_of(ks.take(i as int), m);
        proof {
            assert(ks.take(i + 1).drop_last() =~= ks.take(i as int));
            assert(ks.take(i + 1).last() == k);
            assert(count_of(m, k) == n);
            assert(weight_of(ks.take(i + 1), m) == w0 + n);
            lemma_weight_prefix(ks, m, i + 1);
            assert(k.len() >= 3);
        }
        let chars = chars_of(key.as_str());
        proof {
            assert(chars@ == k);
        }
        let ghost b0 = bigrams@;
        let ghost bk0 = bigrams.keys();
        proof {
            bigrams.lemma_keys();
            lemma_add_weight(bk0, b0, k.subrange(0, 2), 1);
        }
        bigrams.add_count(part(&chars, 0, 2), 1);
        let ghost b1 = bigrams@;
        let ghost bk1 = bigrams.keys();
        proof {
            lemma_bump_below(b0, k.subrange(0, 2), 1, 2 * (i as int));
            bigrams.lemma_keys();
            lemma_add_weight(bk1, b1, k.subrange(1, 3), 1);
        }
        bigrams.add_count(part(&chars, 1, 3), 1);
        proof {
            lemma_bump_below(b1, k.subrange(1, 3), 1, 2 * (i as int) + 1);
        }
        let ghost l0 = letters@;
        proof {
            letters.lemma_keys();
            lemma_add_weight(letters.keys(), letters@, k.subrange(0, 1), n as int);
        }
        letters.add_count(part(&chars, 0, 1), n);
        let ghost l1 = letters@;
        proof {
            lemma_bump_below(l0, k.subrange(0, 1), n as int, 4 * w0);
        }
        proof {
            letters.lemma_keys();
            lemma_add_weight(letters.keys(), letters@, k.subrange(1, 2), n as int);
        }
        letters.add_count(part(&chars, 1, 2), n);
        let ghost l2 = letters@;
        proof {
            lemma_bump_below(l1, k.subrange(1, 2), n as int, 4 * w0 + n);
        }
        proof {
            letters.lemma_keys();
            lemma_add_weight(letters.keys(), letters@, k.subrange(1, 2), n as int);
        }
        letters.add_count(part(&chars, 1, 2), n);
        let ghost l3 = letters@;
        proof {
            lemma_bump_below(l2, k.subrange(1, 2), n as int, 4 * w0 + 2 * n);
        }
        proof {
            letters.lemma_keys();
            lemma_add_weight(letters.keys(), letters@, k.subrange(2, 3), n as int);
        }
        letters.add_count(part(&chars, 2, 3), n);
        proof {
            lemma_bump_below(l3, k.subrange(2, 3), n as int, 4 * w0 + 3 * n);
        }
        let ghost f0 = from@;
        proof {
            from.lemma_keys();
            lemma_add_weight(from.keys(), from@, k.subrange(0, 1), n as int);
        }
        from.add_count(part(&chars, 0, 1), n);
        let ghost f1 = from@;
        proof {
            lemma_bump_below(f0, k.subrange(0, 1), n as int, 2 * w0);
        }
        proof {
            from.lemma_keys();
            lemma_add_weight(from.keys(), from@, k.subrange(1, 2), n as int);
        }
        from.add_count(part(&chars, 1, 2), n);
        proof {
            lemma_bump_below(f1, k.subrange(1, 2), n as int, 2 * w0 + n);
        }
        let ghost t0 = to@;
        proof {
            to.lemma_keys();
            lemma_add_weight(to.keys(), to@, k.subrange(1, 2), n as int);
        }
        to.add_count(part(&chars, 1, 2), n);
        let ghost t1 = to@;
        proof {
            lemma_bump_below(t0, k.subrange(1, 2), n as int, 2 * w0);
        }
        proof {
            to.lemma_keys();
            lemma_add_weight(to.keys(), to@, k.subrange(2, 3), n as int);
        }
        to.add_count(part(&chars, 2, 3), n);
        proof {
            lemma_bump_below(t1, k.subrange(2, 3), n as int, 2 * w0 + n);
        }
        i += 1;
    }
    proof {
        assert(ks.take(i as int) =~= ks);
    }
    (bigrams, letters, from, to)
}

/// For each pair of letters, its first and its second letter, each counted once.
pub open spec fn pair_letter_tally(bks: Seq<Seq<char>>) -> Map<Seq<char>, int>
    decreases bks.len(),
{
    if bks.len() == 0 {
        Map::empty()
    } else {
        let b = bks.last();
        bump(bump(pair_letter_tally(bks.drop_last()), b.subrange(0, 1), 1), b.subrange(1, 2), 1)
    }
}

/// For each pair of letters, its first letter, with the pair's count.
pub open spec fn pair_from_tally(bks: Seq<Seq<char>>, bm: Map<Seq<char>, int>) -> Map<Seq<char>, int>
    decreases bks.len(),
{
    if bks.len() == 0 {
        Map::empty()
    } else {
        let b = bks.last();
        bump(pair_from_tally(bks.drop_last(), bm), b.subrange(0, 1), count_of(bm, b))
    }
}

/// For each pair of letters, its second letter, with the pair's count.
pub open spec fn pair_to_tally(bks: Seq<Seq<char>>, bm: Map<Seq<char>, int>) -> Map<Seq<char>, int>
    decreases bks.len(),
{
    if bks.len() == 0 {
        Map::empty()
    } else {
        let b = bks.last();
        bump(pair_to_tally(bks.drop_last(), bm), b.subrange(1, 2), count_of(bm, b))
    }
}

/// How the letters of a trigram list are used.
pub struct LetterStatistics {
    /// Each pair of consecutive letters within a trigram: in how many trigrams.
    pub bigrams: NgramMap,
    /// Each letter: how often it is typed in the pairs (the middle letter of a
    /// trigram twice), weighed by the trigrams' counts.
    pub letters: NgramMap,
    /// Each letter: how often it starts a pair, weighed by the trigrams' counts.
    pub from_bigram_letters: NgramMap,
    /// Each letter: how often it ends a pair, weighed by the trigrams' counts.
    pub to_bigram_letters: NgramMap,
    /// Each letter: in how many distinct pairs it occurs.
    pub unique_letters: NgramMap,
    /// Each letter: how often the distinct pairs that it starts occur.
    pub from_letters: NgramMap,
    /// Each letter: how often the distinct pairs that it ends occur.
    pub to_letters: NgramMap,
}

/// Counts how the letters of `ngram_list` are used (see `LetterStatistics`);
/// the pairs are taken in the order in which they were first counted. Every
/// trigram types four letters of its pairs, starts two pairs and ends two,
/// and every distinct pair has two letters: the totals of the tables follow.
pub fn letter_statistics(ngram_list: &NgramList) -> (r: LetterStatistics)
    requires
        countable_letters(*ngram_list),
    ensures
        r.bigrams.wf() && r.letters.wf() && r.from_bigram_letters.wf() && r.to_bigram_letters.wf(),
        r.unique_letters.wf() && r.from_letters.wf() && r.to_letters.wf(),
        r.bigrams@ == bigram_tally(ngram_list.map.keys()),
        r.letters@ == letter_tally(ngram_list.map.keys(), ngram_list.map@),
        r.from_bigram_letters@ == from_tally(ngram_list.map.keys(), ngram_list.map@),
        r.to_bigram_letters@ == to_tally(ngram_list.map.keys(), ngram_list.map@),
        r.unique_letters@ == pair_letter_tally(r.bigrams.keys()),
        r.from_letters@ == pair_from_tally(r.bigrams.keys(), r.bigrams@),
        r.to_letters@ == pair_to_tally(r.bigrams.keys(), r.bigrams@),
        weight_of(r.bigrams.keys(), r.bigrams@) == 2 * ngram_list.map.keys().len(),
        weight_of(r.letters.keys(), r.letters@) == 4 * weight_of(ngram_list.map.keys(), ngram_list.map@),
        weight_of(r.from_bigram_letters.keys(), r.from_bigram_letters@) == 2 * weight_of(
            ngram_list.map.keys(),
            ngram_list.map@,
        ),
        weight_of(r.to_bigram_letters.keys(), r.to_bigram_letters@) == 2 * weight_of(ngram_list.map.keys(), ngram_list.map@),
        weight_of(r.unique_letters.keys(), r.unique_letters@) == 2 * r.bigrams.keys().len(),
        weight_of(r.from_letters.keys(), r.from_letters@) == 2 * ngram_list.map.keys().len(),
        weight_of(r.to_letters.keys(), r.to_letters@) == 2 * ngram_list.map.keys().len(),
{
    let (bigrams, letters, from_bigram_letters, to_bigram_letters) = pair_statistics(ngram_list);
    let ghost bks = bigrams.keys();
    let ghost bm = bigrams@;
    let ghost total = 2 * ngram_list.map.keys().len();
    proof {
        bigrams.lemma_keys();
        assert forall|k: Seq<char>| #[trigger] count_of(bm, k) >= 0 by {}
        assert(bks.take(0) =~= Seq::<Seq<char>>::empty());
    }
    let mut unique_letters = NgramMap::new();
    let mut from_letters = NgramMap::new();
    let mut to_letters = NgramMap::new();
    let mut j: usize = 0;
    while j < bigrams.len()
        invariant
            bigrams.wf(),
            bks == bigrams.keys(),
            bm == bigrams@,
            j <= bks.len(),
            2 * bks.len() <= usize::MAX,
            weight_of(bks, bm) == total,
            total <= usize::MAX,
            forall|k: Seq<char>| #[trigger] count_of(bm, k) >= 0,
            forall|b: Seq<char>| #[trigger] bm.contains_key(b) ==> b.len() == 2,
            unique_letters.wf() && from_letters.wf() && to_letters.wf(),
            unique_letters@ == pair_letter_tally(bks.take(j as int)),
            from_letters@ == pair_from_tally(bks.take(j as int), bm),
            to_letters@ == pair_to_tally(bks.take(j as int), bm),
            counts_below(unique_letters@, 2 * (j as int)),
            weight_of(unique_letters.keys(), unique_letters@) == 2 * j,
            weight_of(from_letters.keys(), from_letters@) == weight_of(bks.take(j as int), bm),
            weight_of(to_letters.keys(), to_letters@) == weight_of(bks.take(j as int), bm),
            counts_below(from_letters@, weight_of(bks.take(j as int), bm)),
            counts_below(to_letters@, weight_of(bks.take(j as int), bm)),
        decreases bks.len() - j,
    {
        let (pair, c) = bigrams.entry_at(j);
        let ghost b = bks[j as int];
        let ghost w0 = weight_of(bks.take(j as int), bm);
        proof {
            assert(bks.take(j + 1).drop_last() =~= bks.take(j as int));
            assert(bks.take(j + 1).last() == b);
            assert(count_of(bm, b) == c);
            assert(weight_of(bks.take(j + 1), bm) == w0 + c);
            lemma_weight_prefix(bks, bm, j + 1);
            assert(b.len() == 2);
        }
        let chars = chars_of(pair.as_str());
        let ghost u0 = unique_letters@;
        proof {
            unique_letters.lemma_keys();
            lemma_add_weight(unique_letters.keys(), unique_letters@, b.subrange(0, 1), 1 as int);
        }
        unique_letters.add_count(part(&chars, 0, 1), 1);
        let ghost u1 = unique_letters@;
        proof {
            lemma_bump_below(u0, b.subrange(0, 1), 1, 2 * (j as int));
        }
        proof {
            unique_letters.lemma_keys();
            lemma_add_weight(unique_letters.keys(), unique_letters@, b.subrange(1, 2), 1 as int);
        }
        unique_letters.add_count(part(&chars, 1, 2), 1);
        proof {
            lemma_bump_below(u1, b.subrange(1, 2), 1, 2 * (j as int) + 1);
        }
        let ghost f0 = from_letters@;
        proof {
            from_letters.lemma_keys();
            lemma_add_weight(from_letters.keys(), from_letters@, b.subrange(0, 1), c as int);
        }
        from_letters.add_count(part(&chars, 0, 1), c);
        proof {
            lemma_bump_below(f0, b.subrange(0, 1), c as int, w0);
        }
        let ghost t0 = to_letters@;
        proof {
            to_letters.lemma_keys();
            lemma_add_weight(to_letters.keys(), to_letters@, b.subrange(1, 2), c as int);
        }
        to_letters.add_count(part(&chars, 1, 2), c);
        proof {
            lemma_bump_below(t0, b.subrange(1, 2), c as int, w0);
        }
        j += 1;
    }
    proof {
        assert(bks.take(j as int) =~= bks);
    }
    LetterStatistics {
        bigrams,
        letters,
        from_bigram_letters,
        to_bigram_letters,
        unique_letters,
        from_letters,
        to_letters,
    }
}

} // verus!
