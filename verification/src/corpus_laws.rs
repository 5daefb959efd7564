//! Laws that relate the corpus functions to one another: merging does not
//! depend on the order of the lists, counting several corpora at once is the
//! sum of counting each, and relating a corpus is adding its long items one
//! after the other.
use vstd::prelude::*;
use crate::corpus_manager::{
    count_of, tally_where, within_128_filter, lemma_tally_bounded, total_count, in_some, list_maps,
    NgramList, text_units, prepared_text, prepared_counts, batch_units, relation_add, relation_items,
    item_relation, lemma_short_item_never_counted, RelationView,
};
use crate::text::crlf_to_lf;

verus! {

/* ------------------------------------------------------------------ *
 * Sums of counts over several tables                                 *
 * ------------------------------------------------------------------ */

/// The total over two runs of tables is the sum of their totals.
proof fn lemma_total_concat(a: Seq<Map<Seq<char>, int>>, b: Seq<Map<Seq<char>, int>>, k: Seq<char>)
    ensures
        total_count(a + b, k) == total_count(a, k) + total_count(b, k),
    decreases b.len(),
{
    if b.len() == 0 {
        assert(a + b =~= a);
    } else {
        assert((a + b).drop_last() =~= a + b.drop_last());
        assert((a + b).last() == b.last());
        lemma_total_concat(a, b.drop_last(), k);
    }
}

/// Taking one table out of a run lowers the total by that table's count.
proof fn lemma_total_remove(ms: Seq<Map<Seq<char>, int>>, j: int, k: Seq<char>)
    requires
        0 <= j < ms.len(),
    ensures
        total_count(ms, k) == total_count(ms.remove(j), k) + count_of(ms[j], k),
{
    let a = ms.take(j);
    let one = seq![ms[j]];
    let b = ms.skip(j + 1);
    assert(ms =~= (a + one) + b);
    assert(ms.remove(j) =~= a + b);
    assert(one.drop_last() =~= Seq::<Map<Seq<char>, int>>::empty());
    assert(total_count(one.drop_last(), k) == 0);
    assert(total_count(one, k) == count_of(ms[j], k));
    lemma_total_concat(a + one, b, k);
    lemma_total_concat(a, one, k);
    lemma_total_concat(a, b, k);
}

/// Runs of tables that hold the same tables, in any order, have the same totals.
pub proof fn lemma_total_count_order_free(a: Seq<Map<Seq<char>, int>>, b: Seq<Map<Seq<char>, int>>, k: Seq<char>)
    requires
        a.to_multiset() == b.to_multiset(),
    ensures
        total_count(a, k) == total_count(b, k),
    decreases a.len(),
{
    broadcast use vstd::seq_lib::group_to_multiset_ensures, vstd::multiset::group_multiset_axioms;

    if a.len() == 0 {
        assert(b.to_multiset().len() == 0);
        assert(b.len() == 0);
    } else {
        let x = a.last();
        let a0 = a.drop_last();
        assert(a =~= a0.push(x));
        assert(a.to_multiset() =~= a0.to_multiset().insert(x));
        assert(b.to_multiset().count(x) > 0);
        assert(b.contains(x));
        let j = choose|j: int| 0 <= j < b.len() && b[j] == x;
        assert(b.remove(j).to_multiset() =~= b.to_multiset().remove(x));
        assert(b.remove(j).to_multiset() =~= a0.to_multiset());
        lemma_total_count_order_free(a0, b.remove(j), k);
        lemma_total_remove(b, j, k);
    }
}

/// Runs of tables that hold the same tables, in any order, have the same keys.
pub proof fn lemma_in_some_order_free(a: Seq<Map<Seq<char>, int>>, b: Seq<Map<Seq<char>, int>>, k: Seq<char>)
    requires
        a.to_multiset() == b.to_multiset(),
    ensures
        in_some(a, k) <==> in_some(b, k),
{
    broadcast use vstd::seq_lib::group_to_multiset_ensures;

    if in_some(a, k) {
        let i = choose|i: int| 0 <= i < a.len() && #[trigger] a[i].contains_key(k);
        assert(a.contains(a[i]));
        assert(b.to_multiset().count(a[i]) > 0);
        let j = choose|j: int| 0 <= j < b.len() && b[j] == a[i];
        assert(b[j].contains_key(k));
    }
    if in_some(b, k) {
        let j = choose|j: int| 0 <= j < b.len() && #[trigger] b[j].contains_key(k);
        assert(b.contains(b[j]));
        assert(a.to_multiset().count(b[j]) > 0);
        let i = choose|i: int| 0 <= i < a.len() && a[i] == b[j];
        assert(a[i].contains_key(k));
    }
}

/// Merging does not depend on the order of the lists: two runs of lists that
/// hold the same tables of counts, in any order, give every n-gram the same
/// merged count and the same presence (see `merge_ngram_lists`).
pub proof fn lemma_merge_order_free(lists1: Seq<NgramList>, lists2: Seq<NgramList>)
    requires
        list_maps(lists1).to_multiset() == list_maps(lists2).to_multiset(),
    ensures
        forall|k: Seq<char>|
            #[trigger] total_count(list_maps(lists1), k) == total_count(list_maps(lists2), k),
        forall|k: Seq<char>| #[trigger] in_some(list_maps(lists1), k) <==> in_some(list_maps(lists2), k),
{
    assert forall|k: Seq<char>| #[trigger] total_count(list_maps(lists1), k) == total_count(list_maps(lists2), k) by {
        lemma_total_count_order_free(list_maps(lists1), list_maps(lists2), k);
    }
    assert forall|k: Seq<char>| #[trigger] in_some(list_maps(lists1), k) <==> in_some(list_maps(lists2), k) by {
        lemma_in_some_order_free(list_maps(lists1), list_maps(lists2), k);
    }
}

/* ------------------------------------------------------------------ *
 * Counting several corpora at once                                   *
 * ------------------------------------------------------------------ */

/// Tallying two runs of texts one after the other adds their counts.
proof fn lemma_tally_concat(a: Seq<Seq<char>>, b: Seq<Seq<char>>, keep: spec_fn(Seq<char>) -> bool, k: Seq<char>)
    ensures
        count_of(tally_where(a + b, keep), k) == count_of(tally_where(a, keep), k) + count_of(tally_where(b, keep), k),
    decreases b.len(),
{
    if b.len() == 0 {
        assert(a + b =~= a);
    } else {
        assert((a + b).drop_last() =~= a + b.drop_last());
        assert((a + b).last() == b.last());
        lemma_tally_concat(a, b.drop_last(), keep, k);
    }
}

/// What `prepare_ngram_list` counts in each corpus, with no swaps.
pub open spec fn single_counts(corpora: Seq<Seq<char>>, split: Seq<char>, length: int) -> Seq<Map<Seq<char>, int>> {
    corpora.map_values(|c: Seq<char>| prepared_counts(prepared_text(c, Map::empty()), split, length))
}

/// Each count of a tally is at least one.
proof fn lemma_single_counts_positive(corpora: Seq<Seq<char>>, split: Seq<char>, length: int)
    ensures
        forall|i: int, k: Seq<char>|
            0 <= i < corpora.len() && #[trigger] single_counts(corpora, split, length)[i].contains_key(k)
                ==> single_counts(corpora, split, length)[i][k] >= 1,
{
    assert forall|i: int, k: Seq<char>|
        0 <= i < corpora.len() && #[trigger] single_counts(corpora, split, length)[i].contains_key(k) implies single_counts(
        corpora,
        split,
        length,
    )[i][k] >= 1 by {
        let text = prepared_text(corpora[i], Map::empty());
        lemma_tally_bounded(text_units(text, split, length), within_128_filter());
    }
}

/// With counts of at least one, a total is positive exactly where some table has the key.
proof fn lemma_total_positive(ms: Seq<Map<Seq<char>, int>>, k: Seq<char>)
    requires
        forall|i: int, key: Seq<char>| 0 <= i < ms.len() && #[trigger] ms[i].contains_key(key) ==> ms[i][key] >= 1,
    ensures
        total_count(ms, k) >= 0,
        total_count(ms, k) > 0 <==> in_some(ms, k),
    decreases ms.len(),
{
    if ms.len() > 0 {
        let prev = ms.drop_last();
        assert forall|i: int, key: Seq<char>| 0 <= i < prev.len() && #[trigger] prev[i].contains_key(key) implies prev[i][key] >= 1 by {
            assert(ms[i] == prev[i]);
        }
        lemma_total_positive(prev, k);
        if ms.last().contains_key(k) {
            assert(ms[ms.len() - 1].contains_key(k));
        }
        if in_some(ms, k) {
            let i = choose|i: int| 0 <= i < ms.len() && #[trigger] ms[i].contains_key(k);
            if i < ms.len() - 1 {
                assert(prev[i].contains_key(k));
            }
        }
        if in_some(prev, k) {
            let i = choose|i: int| 0 <= i < prev.len() && #[trigger] prev[i].contains_key(k);
            assert(ms[i].contains_key(k));
        }
    }
}

/// The counts of several corpora at once, in each n-gram, are the sums of the
/// counts of each corpus.
proof fn lemma_batch_counts(corpora: Seq<Seq<char>>, split: Seq<char>, length: int, k: Seq<char>)
    ensures
        count_of(tally_where(batch_units(corpora, split, length), within_128_filter()), k) == total_count(
            single_counts(corpora, split, length),
            k,
        ),
    decreases corpora.len(),
{
    if corpora.len() > 0 {
        let last = corpora.last();
        let front = corpora.drop_last();
        lemma_batch_counts(front, split, length, k);
        assert(single_counts(corpora, split, length).drop_last() =~= single_counts(front, split, length));
        assert(prepared_text(last, Map::empty()) =~= crlf_to_lf(last));
        lemma_tally_concat(batch_units(front, split, length), text_units(crlf_to_lf(last), split, length), within_128_filter(), k);
    }
}

/// Counting several corpora at once (see `batch_parse_ngram_list`) gives
/// each n-gram the sum of its counts in the single corpora (see
/// `prepare_ngram_list`, with no swaps), and holds exactly the n-grams that
/// some single corpus holds.
pub proof fn lemma_batch_is_sum(corpora: Seq<Seq<char>>, split: Seq<char>, length: int)
    ensures
        forall|k: Seq<char>|
            #[trigger] count_of(tally_where(batch_units(corpora, split, length), within_128_filter()), k) == total_count(
                single_counts(corpora, split, length),
                k,
            ),
        forall|k: Seq<char>|
            #[trigger] tally_where(batch_units(corpora, split, length), within_128_filter()).contains_key(k) <==> in_some(
                single_counts(corpora, split, length),
                k,
            ),
{
    let all = batch_units(corpora, split, length);
    lemma_tally_bounded(all, within_128_filter());
    lemma_single_counts_positive(corpora, split, length);
    assert forall|k: Seq<char>|
        #[trigger] count_of(tally_where(all, within_128_filter()), k) == total_count(single_counts(corpora, split, length), k) by {
        lemma_batch_counts(corpora, split, length, k);
    }
    assert forall|k: Seq<char>|
        #[trigger] tally_where(all, within_128_filter()).contains_key(k) <==> in_some(single_counts(corpora, split, length), k) by {
        lemma_batch_counts(corpora, split, length, k);
        lemma_total_positive(single_counts(corpora, split, length), k);
    }
}

/* ------------------------------------------------------------------ *
 * Relating a corpus                                                  *
 * ------------------------------------------------------------------ */

/// The trigram relations of the texts, added one after the other (see
/// `NgramListRelationMapping::add`).
pub open spec fn relation_add_all(m: Map<Seq<char>, RelationView>, texts: Seq<Seq<char>>) -> Map<Seq<char>, RelationView>
    decreases texts.len(),
{
    if texts.len() == 0 {
        m
    } else {
        relation_add(relation_add_all(m, texts.drop_last()), texts.last())
    }
}

/// Accepts the texts of at least `length` characters.
pub open spec fn long_enough(length: int) -> spec_fn(Seq<char>) -> bool {
    |w: Seq<char>| w.len() >= length
}

/// The items of at least `length` characters, in order.
pub open spec fn long_items(items: Seq<Seq<char>>, length: int) -> Seq<Seq<char>> {
    items.filter(long_enough(length))
}

/// Relating a corpus (see `generate_ngram_relation_list`) is adding its items
/// of at least `length` characters one after the other: a shorter item adds
/// nothing.
pub proof fn lemma_relation_is_repeated_add(m: Map<Seq<char>, RelationView>, items: Seq<Seq<char>>, length: int)
    ensures
        relation_items(m, items, length) == relation_add_all(m, long_items(items, length)),
    decreases items.len(),
{
    if items.len() == 0 {
        assert(long_items(items, length) =~= Seq::<Seq<char>>::empty());
    } else {
        let front = items.drop_last();
        let last = items.last();
        assert(items =~= front.push(last));
        front.lemma_filter_push(last, long_enough(length));
        lemma_relation_is_repeated_add(m, front, length);
        if last.len() < length {
            lemma_short_item_never_counted(last, length as nat);
            assert(item_relation(relation_items(m, front, length), last, length) == relation_items(m, front, length));
        } else {
            let lf = long_items(front, length);
            assert(lf.push(last).drop_last() =~= lf);
        }
    }
}

} // verus!
