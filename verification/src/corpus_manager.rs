//! N-gram corpora: counting the n-grams and words of a text, parsing
//! frequency lists, merging and normalising them, and relating each trigram
//! to the trigrams that follow it.
use vstd::prelude::*;
use vstd::hash_map::StringHashMap;
use crate::text::{
    chars_of, string_from_chars, crlf_to_lf, replace_crlf, split_pat, split_by, text_lines, lines,
    views, all_within_128, within_128, all_ascii, sub_chars, parsed_usize, parse_usize, utf8_len,
    utf8_length, lemma_split_pat_nonempty, to_lowercase, lowercase, ascii_lowercase, all_letters_or_spaces,
    letters_or_spaces, decimal, decimal_digits, pad_right, pad_to_width, lemma_decimal_digits, is_digit,
    is_letter_or_space, utf8_len_below, has_space, byte_windows, byte_windows_ok, byte_window_ranges,
};

verus! {

/// The count of `k` in `m`, zero where `k` has none.
pub open spec fn count_of(m: Map<Seq<char>, int>, k: Seq<char>) -> int {
    if m.contains_key(k) {
        m[k]
    } else {
        0
    }
}

/// `m` with `n` added to the count of `k`.
pub open spec fn bump(m: Map<Seq<char>, int>, k: Seq<char>, n: int) -> Map<Seq<char>, int> {
    m.insert(k, count_of(m, k) + n)
}

/// A table of counts keyed by text, which remembers the order in which its
/// keys were first counted.
pub struct NgramMap {
    index: StringHashMap<usize>,
    entries: Vec<(String, usize)>,
}

impl View for NgramMap {
    type V = Map<Seq<char>, int>;

    closed spec fn view(&self) -> Map<Seq<char>, int> {
        Map::new(
            |k: Seq<char>| self.index@.contains_key(k),
            |k: Seq<char>| self.entries@[self.index@[k] as int].1 as int,
        )
    }
}

impl NgramMap {
    /// The index and the entries agree: each key has one entry, at the
    /// position that the index gives.
    pub closed spec fn wf(&self) -> bool {
        &&& forall|i: int|
            0 <= i < self.entries@.len() ==> #[trigger] self.index@.contains_key(self.entries@[i].0@)
                && self.index@[self.entries@[i].0@] == i
        &&& forall|k: Seq<char>|
            #[trigger] self.index@.contains_key(k) ==> (self.index@[k] as int) < self.entries@.len()
                && self.entries@[self.index@[k] as int].0@ == k
    }

    /// The keys, in the order in which they were first counted.
    pub closed spec fn keys(&self) -> Seq<Seq<char>> {
        self.entries@.map_values(|e: (String, usize)| e.0@)
    }

    /// The keys are those of the counts, each once, and every count fits in `usize`.
    pub proof fn lemma_keys(&self)
        requires
            self.wf(),
        ensures
            self.keys().no_duplicates(),
            forall|k: Seq<char>| #[trigger] self@.contains_key(k) <==> self.keys().contains(k),
            forall|i: int| 0 <= i < self.keys().len() ==> #[trigger] self@.contains_key(self.keys()[i]),
            forall|k: Seq<char>| #[trigger] self@.contains_key(k) ==> 0 <= self@[k] <= usize::MAX,
            self@.dom().finite(),
            self@.dom().len() == self.keys().len(),
    {
        let ks = self.keys();
        assert forall|i: int, j: int| 0 <= i < ks.len() && 0 <= j < ks.len() && i != j implies ks[i] != ks[j] by {
            assert(ks[i] == self.entries@[i].0@ && ks[j] == self.entries@[j].0@);
            assert(self.index@.contains_key(self.entries@[i].0@));
            assert(self.index@.contains_key(self.entries@[j].0@));
        }
        assert forall|k: Seq<char>| #[trigger] self@.contains_key(k) <==> ks.contains(k) by {
            if self@.contains_key(k) {
                assert(ks[self.index@[k] as int] == k);
            }
            if ks.contains(k) {
                let i = choose|i: int| 0 <= i < ks.len() && ks[i] == k;
                assert(self.index@.contains_key(self.entries@[i].0@));
            }
        }
        assert forall|i: int| 0 <= i < ks.len() implies #[trigger] self@.contains_key(ks[i]) by {
            assert(self.index@.contains_key(self.entries@[i].0@));
        }
        assert(self@.dom() =~= ks.to_set());
        ks.unique_seq_to_set();
    }

    /// An empty table.
    pub fn new() -> (r: NgramMap)
        ensures
            r.wf(),
            r@ == Map::<Seq<char>, int>::empty(),
            r.keys() == Seq::<Seq<char>>::empty(),
    {
        let r = NgramMap { index: StringHashMap::new(), entries: Vec::new() };
        assert(r@ =~= Map::<Seq<char>, int>::empty());
        assert(r.keys() =~= Seq::<Seq<char>>::empty());
        r
    }

    /// The number of keys.
    pub fn len(&self) -> (r: usize)
        requires
            self.wf(),
        ensures
            r == self.keys().len(),
    {
        self.entries.len()
    }

    /// The count of `k`, if it has one.
    pub fn get(&self, k: &str) -> (r: Option<usize>)
        requires
            self.wf(),
        ensures
            match r {
                Some(v) => self@.contains_key(k@) && self@[k@] == v,
                None => !self@.contains_key(k@),
            },
    {
        match self.index.get(k) {
            Some(i) => Some(self.entries[*i].1),
            None => None,
        }
    }

    /// The key at position `i` of the key order, with its count.
    pub fn entry_at(&self, i: usize) -> (r: (String, usize))
        requires
            self.wf(),
            i < self.keys().len(),
        ensures
            r.0@ == self.keys()[i as int],
            self@.contains_key(r.0@),
            r.1 == self@[r.0@],
    {
        let e = &self.entries[i];
        assert(self.index@.contains_key(self.entries@[i as int].0@));
        (e.0.clone(), e.1)
    }

    /// Adds `n` to the count of `k`; a new key goes to the end of the key order.
    pub fn add_count(&mut self, k: String, n: usize)
        requires
            old(self).wf(),
            count_of(old(self)@, k@) + n <= usize::MAX,
        ensures
            final(self).wf(),
            final(self)@ == bump(old(self)@, k@, n as int),
            final(self).keys() == (if old(self)@.contains_key(k@) {
                old(self).keys()
            } else {
                old(self).keys().push(k@)
            }),
    {
        let ghost old_self = *self;
        match self.index.get(k.as_str()) {
            Some(ip) => {
                let i = *ip;
                let c = self.entries[i].1;
                self.entries.set(i, (k, c + n));
                proof {
                    assert forall|j: int| 0 <= j < self.entries@.len() implies #[trigger] self.index@.contains_key(
                        self.entries@[j].0@,
                    ) && self.index@[self.entries@[j].0@] == j by {
                        assert(old_self.index@.contains_key(old_self.entries@[j].0@));
                    }
                    assert(self@ =~= bump(old_self@, k@, n as int));
                    assert(self.keys() =~= old_self.keys());
                }
            },
            None => {
                let pos = self.entries.len();
                self.index.insert(k.clone(), pos);
                self.entries.push((k, n));
                proof {
                    assert forall|j: int| 0 <= j < self.entries@.len() implies #[trigger] self.index@.contains_key(
                        self.entries@[j].0@,
                    ) && self.index@[self.entries@[j].0@] == j by {
                        if j < pos {
                            assert(old_self.index@.contains_key(old_self.entries@[j].0@));
                        }
                    }
                    assert forall|key: Seq<char>| #[trigger] self.index@.contains_key(key) implies (
                    self.index@[key] as int) < self.entries@.len() && self.entries@[self.index@[key] as int].0@
                        == key by {
                        if key != k@ {
                            assert(old_self.index@.contains_key(key));
                        }
                    }
                    assert(self@ =~= bump(old_self@, k@, n as int));
                    assert(self.keys() =~= old_self.keys().push(k@));
                }
            },
        }
    }
}

/// Counts of the texts of `ws` that `keep` accepts.
pub open spec fn tally_where(ws: Seq<Seq<char>>, keep: spec_fn(Seq<char>) -> bool) -> Map<Seq<char>, int>
    decreases ws.len(),
{
    if ws.len() == 0 {
        Map::empty()
    } else {
        let m = tally_where(ws.drop_last(), keep);
        if keep(ws.last()) {
            bump(m, ws.last(), 1)
        } else {
            m
        }
    }
}

/// Accepts the texts whose characters all have a code point of at most 128.
pub open spec fn within_128_filter() -> spec_fn(Seq<char>) -> bool {
    |w: Seq<char>| all_within_128(w)
}

/// Every count of a tally is positive and at most the number of texts tallied.
pub proof fn lemma_tally_bounded(ws: Seq<Seq<char>>, keep: spec_fn(Seq<char>) -> bool)
    ensures
        forall|k: Seq<char>| #[trigger] tally_where(ws, keep).contains_key(k) ==> 1 <= tally_where(ws, keep)[k] <= ws.len(),
    decreases ws.len(),
{
    if ws.len() > 0 {
        let prev = tally_where(ws.drop_last(), keep);
        lemma_tally_bounded(ws.drop_last(), keep);
        assert forall|k: Seq<char>| #[trigger] tally_where(ws, keep).contains_key(k) implies 1 <= tally_where(
            ws,
            keep,
        )[k] <= ws.len() by {
            if keep(ws.last()) && k == ws.last() {
                if prev.contains_key(k) {
                    assert(prev[k] <= ws.len() - 1);
                }
            } else {
                assert(prev.contains_key(k));
            }
        }
    }
}

/// Tallying one more text.
pub proof fn lemma_tally_push(ws: Seq<Seq<char>>, w: Seq<char>, keep: spec_fn(Seq<char>) -> bool)
    ensures
        tally_where(ws.push(w), keep) == (if keep(w) {
            bump(tally_where(ws, keep), w, 1)
        } else {
            tally_where(ws, keep)
        }),
{
    assert(ws.push(w).drop_last() =~= ws);
}

/// The words of the lines `ls`, cut at each occurrence of `p`, line after line.
pub open spec fn words_of_lines(ls: Seq<Seq<char>>, p: Seq<char>) -> Seq<Seq<char>>
    decreases ls.len(),
{
    if ls.len() == 0 {
        seq![]
    } else {
        words_of_lines(ls.drop_last(), p) + split_pat(ls.last(), p)
    }
}

/// The words of the first lines are no more than the words of all lines.
pub proof fn lemma_words_prefix(ls: Seq<Seq<char>>, p: Seq<char>, i: int)
    requires
        0 <= i <= ls.len(),
    ensures
        words_of_lines(ls.take(i), p).len() <= words_of_lines(ls, p).len(),
    decreases ls.len(),
{
    if i == ls.len() {
        assert(ls.take(i) =~= ls);
    } else {
        assert(ls.drop_last().take(i) =~= ls.take(i));
        lemma_words_prefix(ls.drop_last(), p, i);
    }
}

/// The windows of `n` characters of `s` that start before position
/// `s.len() - n`: every window but the last.
pub open spec fn windows(s: Seq<char>, n: int) -> Seq<Seq<char>> {
    Seq::new((s.len() - n) as nat, |i: int| s.subrange(i, i + n))
}

/// Counts of n-grams, and the n-gram length they were made with.
pub struct NgramList {
    pub map: NgramMap,
    pub gram: usize,
}

impl NgramList {
    /// An empty list of length 0.
    pub fn new() -> (r: NgramList)
        ensures
            r.map.wf(),
            r.map@ == Map::<Seq<char>, int>::empty(),
            r.map.keys() == Seq::<Seq<char>>::empty(),
            r.gram == 0,
    {
        NgramList { map: NgramMap::new(), gram: 0 }
    }

    /// Counts `elem` once more.
    pub fn add(&mut self, elem: String)
        requires
            old(self).map.wf(),
            count_of(old(self).map@, elem@) + 1 <= usize::MAX,
        ensures
            final(self).map.wf(),
            final(self).map@ == bump(old(self).map@, elem@, 1),
            final(self).gram == old(self).gram,
    {
        self.map.add_count(elem, 1);
    }

    /// Counts `elem` `count` times more.
    pub fn add_sized(&mut self, elem: String, count: usize)
        requires
            old(self).map.wf(),
            count_of(old(self).map@, elem@) + count <= usize::MAX,
        ensures
            final(self).map.wf(),
            final(self).map@ == bump(old(self).map@, elem@, count as int),
            final(self).gram == old(self).gram,
    {
        self.map.add_count(elem, count);
    }
}

/// Adds to `list` each text of `ws` whose characters are all within 128.
fn tally_into(list: &mut NgramList, ws: &Vec<Vec<char>>, Ghost(prev): Ghost<Seq<Seq<char>>>)
    requires
        old(list).map.wf(),
        old(list).map@ == tally_where(prev, within_128_filter()),
        prev.len() + ws.len() <= usize::MAX,
    ensures
        final(list).map.wf(),
        final(list).map@ == tally_where(prev + views(ws@), within_128_filter()),
        final(list).gram == old(list).gram,
{
    let ghost keep = within_128_filter();
    let ghost g = list.gram;
    let mut j: usize = 0;
    assert(prev + views(ws@).take(0) =~= prev);
    while j < ws.len()
        invariant
            j <= ws.len(),
            keep == within_128_filter(),
            list.map.wf(),
            list.map@ == tally_where(prev + views(ws@).take(j as int), keep),
            prev.len() + ws.len() <= usize::MAX,
            list.gram == g,
        decreases ws.len() - j,
    {
        let ghost before = prev + views(ws@).take(j as int);
        proof {
            lemma_tally_bounded(before, keep);
            assert(prev + views(ws@).take(j + 1) =~= before.push(ws@[j as int]@));
            lemma_tally_push(before, ws@[j as int]@, keep);
        }
        if within_128(ws[j].as_slice()) {
            let key = string_from_chars(ws[j].as_slice());
            list.add(key);
        }
        j += 1;
    }
    assert(views(ws@).take(ws.len() as int) =~= views(ws@));
}

/// The replacement for `c` in `pairs`: the last pair that starts with `c` wins.
pub open spec fn swap_lookup(pairs: Seq<(char, char)>, c: char) -> Option<char>
    decreases pairs.len(),
{
    if pairs.len() == 0 {
        None
    } else if pairs.last().0 == c {
        Some(pairs.last().1)
    } else {
        swap_lookup(pairs.drop_last(), c)
    }
}

/// Characters to replace by others before a corpus is counted.
pub struct SwapCharList {
    pairs: Vec<(char, char)>,
}

impl View for SwapCharList {
    type V = Map<char, char>;

    closed spec fn view(&self) -> Map<char, char> {
        Map::new(|c: char| swap_lookup(self.pairs@, c) is Some, |c: char| swap_lookup(self.pairs@, c)->0)
    }
}

impl SwapCharList {
    /// No replacements.
    pub fn new() -> (r: SwapCharList)
        ensures
            r@ == Map::<char, char>::empty(),
    {
        let r = SwapCharList { pairs: Vec::new() };
        assert(r@ =~= Map::<char, char>::empty());
        r
    }

    /// Replace `from` by `to` from now on.
    pub fn insert(&mut self, from: char, to: char)
        ensures
            final(self)@ == old(self)@.insert(from, to),
    {
        let ghost old_pairs = self.pairs@;
        self.pairs.push((from, to));
        assert forall|c: char| swap_lookup(self.pairs@, c) == (if c == from { Some(to) } else { swap_lookup(old_pairs, c) }) by {
            assert(self.pairs@.drop_last() =~= old_pairs);
        }
        assert(self@ =~= old(self)@.insert(from, to));
    }

    /// The replacement for `c`, if it has one.
    pub fn get(&self, c: char) -> (r: Option<char>)
        ensures
            r == (if self@.contains_key(c) {
                Some(self@[c])
            } else {
                None
            }),
    {
        let mut k: usize = self.pairs.len();
        assert(self.pairs@.take(k as int) =~= self.pairs@);
        while k > 0
            invariant
                k <= self.pairs@.len(),
                swap_lookup(self.pairs@.take(k as int), c) == swap_lookup(self.pairs@, c),
            decreases k,
        {
            let ghost t = self.pairs@.take(k as int);
            assert(t.drop_last() =~= self.pairs@.take(k - 1));
            if self.pairs[k - 1].0 == c {
                return Some(self.pairs[k - 1].1);
            }
            k -= 1;
        }
        None
    }
}

/// `s` with each character that `swaps` names replaced.
pub open spec fn swap_all(s: Seq<char>, swaps: Map<char, char>) -> Seq<char> {
    s.map_values(|c: char| if swaps.contains_key(c) { swaps[c] } else { c })
}

/// A corpus as it is counted: `"\r\n"` made `"\n"`, then the swaps applied.
pub open spec fn prepared_text(corpus: Seq<char>, swaps: Map<char, char>) -> Seq<char> {
    swap_all(crlf_to_lf(corpus), swaps)
}

/// The texts that are counted of one corpus text: with a separator, the
/// words of each line cut at the separator; without one, the text of each
/// byte range `i..i + length` for `i` below the number of characters less
/// `length` (see `byte_windows`; on ASCII text, every window of `length`
/// characters but the last).
pub open spec fn text_units(text: Seq<char>, split: Seq<char>, length: int) -> Seq<Seq<char>> {
    if split.len() > 0 {
        words_of_lines(text_lines(text), split)
    } else {
        byte_windows(text, length)
    }
}

/// What `prepare_ngram_list` counts: the units of the text (see `text_units`)
/// whose characters are all within 128.
pub open spec fn prepared_counts(text: Seq<char>, split: Seq<char>, length: int) -> Map<Seq<char>, int> {
    tally_where(text_units(text, split, length), within_128_filter())
}

/// Adds to `list` the units of `text` (see `text_units`) whose characters are
/// all within 128.
fn count_into(list: &mut NgramList, text: &Vec<char>, split: &Vec<char>, length: usize, Ghost(prev): Ghost<Seq<Seq<char>>>)
    requires
        old(list).map.wf(),
        old(list).map@ == tally_where(prev, within_128_filter()),
        prev.len() + text_units(text@, split@, length as int).len() <= usize::MAX,
        split@.len() == 0 ==> byte_windows_ok(text@, length as int),
    ensures
        final(list).map.wf(),
        final(list).map@ == tally_where(prev + text_units(text@, split@, length as int), within_128_filter()),
        final(list).gram == old(list).gram,
{
    let ghost keep = within_128_filter();
    let ghost g = list.gram;
    if split.len() > 0 {
        let ls = lines(text.as_slice());
        let ghost lv = views(ls@);
        let mut i: usize = 0;
        assert(lv.take(0) =~= Seq::<Seq<char>>::empty());
        assert(prev + words_of_lines(lv.take(0), split@) =~= prev);
        while i < ls.len()
            invariant
                i <= ls.len(),
                lv == views(ls@),
                lv == text_lines(text@),
                split@.len() > 0,
                keep == within_128_filter(),
                prev.len() + words_of_lines(lv, split@).len() <= usize::MAX,
                list.map.wf(),
                list.gram == g,
                list.map@ == tally_where(prev + words_of_lines(lv.take(i as int), split@), keep),
            decreases ls.len() - i,
        {
            let pieces = split_by(ls[i].as_slice(), split.as_slice());
            let ghost before = prev + words_of_lines(lv.take(i as int), split@);
            proof {
                assert(lv.take(i + 1).drop_last() =~= lv.take(i as int));
                assert(views(pieces@) == split_pat(lv[i as int], split@));
                lemma_words_prefix(lv, split@, i + 1);
                assert(before + views(pieces@) =~= prev + words_of_lines(lv.take(i + 1), split@));
            }
            tally_into(list, &pieces, Ghost(before));
            i += 1;
        }
        assert(lv.take(i as int) =~= lv);
    } else {
        let ranges = byte_window_ranges(text.as_slice(), length).unwrap();
        let n = ranges.len();
        let ghost ws = byte_windows(text@, length as int);
        let mut i: usize = 0;
        assert(prev + ws.take(0) =~= prev);
        while i < n
            invariant
                i <= n,
                n == ranges@.len(),
                n == ws.len(),
                ws == byte_windows(text@, length as int),
                forall|j: int|
                    0 <= j < ranges@.len() ==> #[trigger] ranges@[j].0 <= ranges@[j].1 <= text@.len()
                        && text@.subrange(ranges@[j].0 as int, ranges@[j].1 as int) == ws[j],
                prev.len() + ws.len() <= usize::MAX,
                keep == within_128_filter(),
                list.map.wf(),
                list.gram == g,
                list.map@ == tally_where(prev + ws.take(i as int), keep),
            decreases n - i,
        {
            let (from, to) = ranges[i];
            let w = sub_chars(text.as_slice(), from, to);
            let ghost before = prev + ws.take(i as int);
            proof {
                assert(w@ == ws[i as int]);
                assert(prev + ws.take(i + 1) =~= before.push(w@));
                lemma_tally_bounded(before, keep);
                lemma_tally_push(before, w@, keep);
            }
            if within_128(w.as_slice()) {
                list.add(string_from_chars(w.as_slice()));
            }
            i += 1;
        }
        assert(ws.take(i as int) =~= ws);
    }
}

/// Counts the n-grams of a corpus. `"\r\n"` becomes `"\n"` and the swaps are
/// applied first. With a non-empty `split_char`, each line is cut at each
/// occurrence of it and the pieces are counted; without one, the text of each
/// byte range `i..i + length` is counted, for each `i` below the number of
/// characters less `length` (see `byte_windows`; on ASCII text, every window
/// of `length` characters but the last). Only texts whose characters all have
/// a code point of at most 128 are counted.
pub fn prepare_ngram_list(
    corpus: &String,
    swap_char_list: SwapCharList,
    split_char: &String,
    length: usize,
) -> (r: NgramList)
    requires
        text_units(prepared_text(corpus@, swap_char_list@), split_char@, length as int).len() <= usize::MAX,
        split_char@.len() == 0 ==> byte_windows_ok(prepared_text(corpus@, swap_char_list@), length as int),
    ensures
        r.map.wf(),
        r.gram == length,
        r.map@ == prepared_counts(prepared_text(corpus@, swap_char_list@), split_char@, length as int),
{
    let raw = chars_of(corpus.as_str());
    let lf = replace_crlf(raw.as_slice());
    let mut text: Vec<char> = Vec::new();
    let mut i: usize = 0;
    while i < lf.len()
        invariant
            i <= lf.len(),
            text@ == swap_all(lf@.take(i as int), swap_char_list@),
        decreases lf.len() - i,
    {
        let c = lf[i];
        match swap_char_list.get(c) {
            Some(t) => text.push(t),
            None => text.push(c),
        }
        i += 1;
        assert(text@ =~= swap_all(lf@.take(i as int), swap_char_list@));
    }
    assert(lf@.take(i as int) =~= lf@);
    let split = chars_of(split_char.as_str());
    let mut list = NgramList::new();
    assert(Seq::<Seq<char>>::empty() + text_units(text@, split@, length as int) =~= text_units(text@, split@, length as int));
    count_into(&mut list, &text, &split, length, Ghost(Seq::empty()));
    NgramList { map: list.map, gram: length }
}

/// The views of a sequence of strings.
pub open spec fn string_views(v: Seq<String>) -> Seq<Seq<char>> {
    v.map_values(|x: String| x@)
}

/// The units counted from each corpus in turn, each with `"\r\n"` made `"\n"`.
pub open spec fn batch_units(corpora: Seq<Seq<char>>, split: Seq<char>, length: int) -> Seq<Seq<char>>
    decreases corpora.len(),
{
    if corpora.len() == 0 {
        seq![]
    } else {
        batch_units(corpora.drop_last(), split, length) + text_units(crlf_to_lf(corpora.last()), split, length)
    }
}

/// The units of the first corpora are no more than the units of all of them.
pub proof fn lemma_batch_prefix(corpora: Seq<Seq<char>>, split: Seq<char>, length: int, i: int)
    requires
        0 <= i <= corpora.len(),
    ensures
        batch_units(corpora.take(i), split, length).len() <= batch_units(corpora, split, length).len(),
    decreases corpora.len(),
{
    if i == corpora.len() {
        assert(corpora.take(i) =~= corpora);
    } else {
        assert(corpora.drop_last().take(i) =~= corpora.take(i));
        lemma_batch_prefix(corpora.drop_last(), split, length, i);
    }
}

/// Counts the n-grams of several corpora together, as `prepare_ngram_list`
/// does for one (without swaps); the result has length 0.
pub fn batch_parse_ngram_list(corpora: Vec<String>, split_char: &String, length: usize) -> (r: NgramList)
    requires
        batch_units(string_views(corpora@), split_char@, length as int).len() <= usize::MAX,
        split_char@.len() == 0 ==> forall|i: int|
            0 <= i < corpora@.len() ==> byte_windows_ok(crlf_to_lf(#[trigger] corpora@[i]@), length as int),
    ensures
        r.map.wf(),
        r.gram == 0,
        r.map@ == tally_where(batch_units(string_views(corpora@), split_char@, length as int), within_128_filter()),
{
    let ghost cs = string_views(corpora@);
    let split = chars_of(split_char.as_str());
    let mut list = NgramList::new();
    let mut i: usize = 0;
    assert(cs.take(0) =~= Seq::<Seq<char>>::empty());
    while i < corpora.len()
        invariant
            i <= corpora@.len(),
            cs == string_views(corpora@),
            split@ == split_char@,
            batch_units(cs, split@, length as int).len() <= usize::MAX,
            split@.len() == 0 ==> forall|j: int|
                0 <= j < corpora@.len() ==> byte_windows_ok(crlf_to_lf(#[trigger] corpora@[j]@), length as int),
            list.map.wf(),
            list.gram == 0,
            list.map@ == tally_where(batch_units(cs.take(i as int), split@, length as int), within_128_filter()),
        decreases corpora@.len() - i,
    {
        let raw = chars_of(corpora[i].as_str());
        let text = replace_crlf(raw.as_slice());
        proof {
            assert(cs.take(i + 1).drop_last() =~= cs.take(i as int));
            assert(cs[i as int] == corpora@[i as int]@);
            lemma_batch_prefix(cs, split@, length as int, i + 1);
        }
        count_into(&mut list, &text, &split, length, Ghost(batch_units(cs.take(i as int), split@, length as int)));
        i += 1;
    }
    assert(cs.take(i as int) =~= cs);
    list
}

/// The lines of a frequency list: the corpus with `"\r\n"` made `"\n"`, cut into lines.
pub open spec fn corpus_lines_of(corpus: Seq<char>) -> Seq<Seq<char>> {
    text_lines(crlf_to_lf(corpus))
}

/// The lines of a corpus, `"\r\n"` counted as `"\n"`.
pub fn corpus_lines(corpus: &String) -> (r: Vec<String>)
    ensures
        string_views(r@) == corpus_lines_of(corpus@),
{
    let raw = chars_of(corpus.as_str());
    let text = replace_crlf(raw.as_slice());
    let ls = lines(text.as_slice());
    let mut r: Vec<String> = Vec::new();
    let mut i: usize = 0;
    while i < ls.len()
        invariant
            i <= ls.len(),
            string_views(r@) == views(ls@).take(i as int),
        decreases ls.len() - i,
    {
        let line = string_from_chars(ls[i].as_slice());
        assert(views(ls@)[i as int] == ls@[i as int]@);
        assert(views(ls@).take(i + 1) =~= views(ls@).take(i as int).push(line@));
        r.push(line);
        i += 1;
        assert(string_views(r@) =~= views(ls@).take(i as int));
    }
    assert(views(ls@).take(i as int) =~= views(ls@));
    r
}

/// The count that a frequency-list line gives: its second field parsed as a
/// number, zero where it does not parse.
pub open spec fn parsed_count(field: Seq<char>) -> int {
    match parsed_usize(field) {
        Some(v) => v as int,
        None => 0,
    }
}

/// Each line cut at the separator gives exactly two fields.
pub open spec fn all_pairs(ls: Seq<Seq<char>>, split: Seq<char>) -> bool {
    forall|i: int| 0 <= i < ls.len() ==> #[trigger] split_pat(ls[i], split).len() == 2
}

/// The counts of a frequency list: for each line `key<split>count` whose key
/// has all its characters within 128, the parsed count is added to the key.
pub open spec fn pair_tally(ls: Seq<Seq<char>>, split: Seq<char>) -> Map<Seq<char>, int>
    decreases ls.len(),
{
    if ls.len() == 0 {
        Map::empty()
    } else {
        let m = pair_tally(ls.drop_last(), split);
        let fields = split_pat(ls.last(), split);
        if all_within_128(fields[0]) {
            bump(m, fields[0], parsed_count(fields[1]))
        } else {
            m
        }
    }
}

/// The sum of the counts that the lines add (see `pair_tally`).
pub open spec fn pair_total(ls: Seq<Seq<char>>, split: Seq<char>) -> int
    decreases ls.len(),
{
    if ls.len() == 0 {
        0
    } else {
        let fields = split_pat(ls.last(), split);
        pair_total(ls.drop_last(), split) + if all_within_128(fields[0]) {
            parsed_count(fields[1])
        } else {
            0
        }
    }
}

/// Counts never exceed the total, and the total of a prefix never exceeds the whole.
pub proof fn lemma_pair_total(ls: Seq<Seq<char>>, split: Seq<char>, i: int)
    requires
        0 <= i <= ls.len(),
    ensures
        0 <= pair_total(ls.take(i), split) <= pair_total(ls, split),
        forall|k: Seq<char>| #[trigger] pair_tally(ls, split).contains_key(k) ==> 0 <= pair_tally(ls, split)[k] <= pair_total(ls, split),
    decreases ls.len(),
{
    if ls.len() == 0 {
        assert(ls.take(i) =~= ls);
    } else {
        let prev = ls.drop_last();
        if i == ls.len() {
            assert(ls.take(i) =~= ls);
            lemma_pair_total(prev, split, 0);
        } else {
            assert(prev.take(i) =~= ls.take(i));
            lemma_pair_total(prev, split, i);
        }
        let fields = split_pat(ls.last(), split);
        assert forall|k: Seq<char>| #[trigger] pair_tally(ls, split).contains_key(k) implies 0 <= pair_tally(ls, split)[k]
            <= pair_total(ls, split) by {
            if all_within_128(fields[0]) && k == fields[0] {
                if pair_tally(prev, split).contains_key(k) {
                    assert(pair_tally(prev, split)[k] <= pair_total(prev, split));
                }
            } else {
                assert(pair_tally(prev, split).contains_key(k));
            }
        }
    }
}

/// The n-gram length named by the first line of a frequency list: the
/// number of UTF-8 bytes of its first tab-separated field.
pub open spec fn first_gram(ls: Seq<Seq<char>>) -> int {
    utf8_len(split_pat(ls[0], seq!['\t'])[0])
}

/// Reads a frequency list, one `key<split_char>count` line per n-gram.
/// The counts of a key add up; a count that does not parse counts 0; keys
/// with a character beyond 128 are left out. With `calc_gram`, the length
/// is the byte length of the first line's first tab-separated field;
/// otherwise, and always without a separator, it is `length`. Without a
/// separator nothing is counted.
pub fn parse_ngram_list(corpus: &String, split_char: &String, calc_gram: bool, length: usize) -> (r: NgramList)
    requires
        corpus_lines_of(corpus@).len() > 0,
        split_char@.len() > 0 ==> all_pairs(corpus_lines_of(corpus@), split_char@),
        split_char@.len() > 0 ==> pair_total(corpus_lines_of(corpus@), split_char@) <= usize::MAX,
        split_char@.len() > 0 && calc_gram ==> split_pat(corpus_lines_of(corpus@)[0], seq!['\t']).len() == 2,
        split_char@.len() > 0 && calc_gram ==> 4 * split_pat(corpus_lines_of(corpus@)[0], seq!['\t'])[0].len()
            <= usize::MAX,
    ensures
        r.map.wf(),
        r.map@ == (if split_char@.len() > 0 {
            pair_tally(corpus_lines_of(corpus@), split_char@)
        } else {
            Map::empty()
        }),
        r.gram == (if split_char@.len() > 0 && calc_gram {
            first_gram(corpus_lines_of(corpus@))
        } else {
            length as int
        }),
{
    let raw = chars_of(corpus.as_str());
    let text = replace_crlf(raw.as_slice());
    let ls = lines(text.as_slice());
    let ghost lv = views(ls@);
    let split = chars_of(split_char.as_str());
    let mut list = NgramList::new();
    let mut gram_type = length;
    if split.len() > 0 {
        let mut i: usize = 0;
        assert(lv.take(0) =~= Seq::<Seq<char>>::empty());
        while i < ls.len()
            invariant
                i <= ls.len(),
                lv == views(ls@),
                lv == corpus_lines_of(corpus@),
                split@ == split_char@,
                split@.len() > 0,
                all_pairs(lv, split@),
                pair_total(lv, split@) <= usize::MAX,
                list.map.wf(),
                list.gram == 0,
                list.map@ == pair_tally(lv.take(i as int), split@),
            decreases ls.len() - i,
        {
            let fields = split_by(ls[i].as_slice(), split.as_slice());
            let ghost before = lv.take(i as int);
            proof {
                assert(lv.take(i + 1).drop_last() =~= before);
                assert(split_pat(lv[i as int], split@).len() == 2);
                assert(views(fields@)[0] == fields@[0]@);
                assert(views(fields@)[1] == fields@[1]@);
                lemma_pair_total(lv, split@, i + 1);
                lemma_pair_total(lv.take(i + 1), split@, i as int);
                assert(lv.take(i + 1).take(i as int) =~= before);
                lemma_pair_total(before, split@, 0);
            }
            if within_128(fields[0].as_slice()) {
                let count = match parse_usize(fields[1].as_slice()) {
                    Some(v) => v,
                    None => 0,
                };
                list.add_sized(string_from_chars(fields[0].as_slice()), count);
            }
            i += 1;
        }
        assert(lv.take(i as int) =~= lv);
        if calc_gram {
            let tab: Vec<char> = vec!['\t'];
            let first_fields = split_by(ls[0].as_slice(), tab.as_slice());
            proof {
                assert(tab@ =~= seq!['\t']);
                assert(views(first_fields@)[0] == first_fields@[0]@);
            }
            gram_type = utf8_length(first_fields[0].as_slice());
        }
    }
    NgramList { map: list.map, gram: gram_type }
}

/// The count of `k` summed over the tables `ms`.
pub open spec fn total_count(ms: Seq<Map<Seq<char>, int>>, k: Seq<char>) -> int
    decreases ms.len(),
{
    if ms.len() == 0 {
        0
    } else {
        total_count(ms.drop_last(), k) + count_of(ms.last(), k)
    }
}

/// Some table of `ms` has a count for `k`.
pub open spec fn in_some(ms: Seq<Map<Seq<char>, int>>, k: Seq<char>) -> bool {
    exists|i: int| 0 <= i < ms.len() && #[trigger] ms[i].contains_key(k)
}

/// The tables of counts of `lists`.
pub open spec fn list_maps(lists: Seq<NgramList>) -> Seq<Map<Seq<char>, int>> {
    lists.map_values(|l: NgramList| l.map@)
}

/// With no negative counts, the total over the first tables is at most the total over all.
pub proof fn lemma_total_prefix(ms: Seq<Map<Seq<char>, int>>, k: Seq<char>, i: int)
    requires
        0 <= i <= ms.len(),
        forall|j: int, key: Seq<char>| 0 <= j < ms.len() && #[trigger] ms[j].contains_key(key) ==> ms[j][key] >= 0,
    ensures
        0 <= total_count(ms.take(i), k) <= total_count(ms, k),
    decreases ms.len(),
{
    if ms.len() == 0 {
        assert(ms.take(i) =~= ms);
    } else {
        let prev = ms.drop_last();
        assert forall|j: int, key: Seq<char>| 0 <= j < prev.len() && #[trigger] prev[j].contains_key(key) implies prev[j][key] >= 0 by {
            assert(ms[j] == prev[j]);
        }
        if ms.last().contains_key(k) {
            assert(ms[ms.len() - 1].contains_key(k));
        }
        if i == ms.len() {
            assert(ms.take(i) =~= ms);
            lemma_total_prefix(prev, k, 0);
        } else {
            assert(prev.take(i) =~= ms.take(i));
            lemma_total_prefix(prev, k, i);
        }
    }
}

/// Merges lists of counts: each n-gram's count is the sum of its counts in
/// the lists. The result has length 0.
pub fn merge_ngram_lists(lists: Vec<NgramList>) -> (r: NgramList)
    requires
        forall|i: int| 0 <= i < lists@.len() ==> (#[trigger] lists@[i]).map.wf(),
        forall|k: Seq<char>| #[trigger] total_count(list_maps(lists@), k) <= usize::MAX,
    ensures
        r.map.wf(),
        r.gram == 0,
        forall|k: Seq<char>| #[trigger] r.map@.contains_key(k) <==> in_some(list_maps(lists@), k),
        forall|k: Seq<char>| #[trigger] r.map@.contains_key(k) ==> r.map@[k] == total_count(list_maps(lists@), k),
{
    let ghost ms = list_maps(lists@);
    proof {
        assert forall|j: int, key: Seq<char>| 0 <= j < ms.len() && #[trigger] ms[j].contains_key(key) implies ms[j][key] >= 0 by {
            lists@[j].map.lemma_keys();
        }
    }
    let mut result = NgramList::new();
    let mut i: usize = 0;
    while i < lists.len()
        invariant
            i <= lists@.len(),
            ms == list_maps(lists@),
            forall|j: int| 0 <= j < lists@.len() ==> (#[trigger] lists@[j]).map.wf(),
            forall|k: Seq<char>| #[trigger] total_count(ms, k) <= usize::MAX,
            forall|j: int, key: Seq<char>| 0 <= j < ms.len() && #[trigger] ms[j].contains_key(key) ==> ms[j][key] >= 0,
            result.map.wf(),
            result.gram == 0,
            forall|k: Seq<char>| #[trigger] count_of(result.map@, k) == total_count(ms.take(i as int), k),
            forall|k: Seq<char>| #[trigger] result.map@.contains_key(k) <==> in_some(ms.take(i as int), k),
        decreases lists@.len() - i,
    {
        let list = &lists[i];
        let ghost m = list.map@;
        let ghost ks = list.map.keys();
        proof {
            list.map.lemma_keys();
            assert(ms[i as int] == m);
        }
        let mut j: usize = 0;
        while j < list.map.len()
            invariant
                i < lists@.len(),
                j <= ks.len(),
                list == &lists@[i as int],
                list.map.wf(),
                m == list.map@,
                ks == list.map.keys(),
                ks.no_duplicates(),
                forall|k: Seq<char>| #[trigger] m.contains_key(k) <==> ks.contains(k),
                ms == list_maps(lists@),
                ms[i as int] == m,
                forall|k: Seq<char>| #[trigger] total_count(ms, k) <= usize::MAX,
                forall|j2: int, key: Seq<char>| 0 <= j2 < ms.len() && #[trigger] ms[j2].contains_key(key) ==> ms[j2][key] >= 0,
                result.map.wf(),
                result.gram == 0,
                forall|k: Seq<char>| #[trigger] count_of(result.map@, k) == total_count(ms.take(i as int), k)
                    + (if ks.take(j as int).contains(k) { m[k] } else { 0 }),
                forall|k: Seq<char>| #[trigger] result.map@.contains_key(k) <==> (in_some(ms.take(i as int), k)
                    || ks.take(j as int).contains(k)),
            decreases ks.len() - j,
        {
            let (key, v) = list.map.entry_at(j);
            let ghost kk = key@;
            proof {
                assert(ms.take(i + 1).drop_last() =~= ms.take(i as int));
                assert(ms.take(i + 1).last() == m);
                lemma_total_prefix(ms, kk, i + 1);
                assert(!ks.take(j as int).contains(kk)) by {
                    if ks.take(j as int).contains(kk) {
                        let before = ks.take(j as int);
                        let t = choose|t: int| 0 <= t < before.len() && #[trigger] before[t] == kk;
                        assert(ks[t] == ks[j as int]);
                    }
                }
                assert(count_of(result.map@, kk) + v <= usize::MAX);
            }
            let ghost old_map = result.map@;
            result.add_sized(key, v);
            proof {
                let before = ks.take(j as int);
                let after = ks.take(j + 1);
                assert(after =~= before.push(kk));
                assert forall|k: Seq<char>| #[trigger] after.contains(k) <==> (before.contains(k) || k == kk) by {
                    if after.contains(k) && k != kk {
                        let t = choose|t: int| 0 <= t < after.len() && #[trigger] after[t] == k;
                        assert(before[t] == k);
                    }
                    if before.contains(k) {
                        let t = choose|t: int| 0 <= t < before.len() && #[trigger] before[t] == k;
                        assert(after[t] == k);
                    }
                    if k == kk {
                        assert(after[j as int] == k);
                    }
                }
                assert forall|k: Seq<char>| #[trigger] count_of(result.map@, k) == total_count(ms.take(i as int), k)
                    + (if after.contains(k) { m[k] } else { 0 }) by {
                    assert(count_of(old_map, k) == total_count(ms.take(i as int), k) + (if before.contains(k) {
                        m[k]
                    } else {
                        0
                    }));
                }
                assert forall|k: Seq<char>| #[trigger] result.map@.contains_key(k) <==> (in_some(ms.take(i as int), k)
                    || after.contains(k)) by {
                    assert(old_map.contains_key(k) <==> (in_some(ms.take(i as int), k) || before.contains(k)));
                }
            }
            j += 1;
        }
        proof {
            assert(ks.take(ks.len() as int) =~= ks);
            assert forall|k: Seq<char>| #[trigger] count_of(result.map@, k) == total_count(ms.take(i + 1), k) by {
                assert(ms.take(i + 1).drop_last() =~= ms.take(i as int));
            }
            assert forall|k: Seq<char>| #[trigger] result.map@.contains_key(k) <==> in_some(ms.take(i + 1), k) by {
                let t2 = ms.take(i + 1);
                if in_some(t2, k) {
                    let w = choose|w: int| 0 <= w < t2.len() && #[trigger] t2[w].contains_key(k);
                    if w < i {
                        assert(ms.take(i as int)[w] == t2[w]);
                    }
                }
                if in_some(ms.take(i as int), k) {
                    let w = choose|w: int| 0 <= w < i && #[trigger] ms.take(i as int)[w].contains_key(k);
                    assert(t2[w] == ms.take(i as int)[w]);
                }
                if ks.contains(k) {
                    assert(t2[i as int] == m);
                    assert(t2[i as int].contains_key(k));
                }
                if in_some(t2, k) {
                    let w = choose|w: int| 0 <= w < t2.len() && #[trigger] t2[w].contains_key(k);
                    if w == i {
                        assert(m.contains_key(k));
                    }
                }
            }
        }
        i += 1;
    }
    proof {
        assert(ms.take(i as int) =~= ms);
        assert forall|k: Seq<char>| #[trigger] result.map@.contains_key(k) implies result.map@[k] == total_count(ms, k) by {
            assert(count_of(result.map@, k) == total_count(ms.take(i as int), k));
        }
    }
    result
}

/// `m` with `v` added to the count of each text of `ws` whose characters are
/// all within 128.
pub open spec fn add_each(m: Map<Seq<char>, int>, ws: Seq<Seq<char>>, v: int) -> Map<Seq<char>, int>
    decreases ws.len(),
{
    if ws.len() == 0 {
        m
    } else {
        let m2 = add_each(m, ws.drop_last(), v);
        if all_within_128(ws.last()) {
            bump(m2, ws.last(), v)
        } else {
            m2
        }
    }
}

/// The counts of the keys `ks` spread over their windows: each key of at
/// least `length` bytes in UTF-8 adds its count to the text of each of its
/// byte ranges `i..i + length` (see `byte_windows`; on ASCII text, each window
/// of `length` characters but the last).
pub open spec fn normalized(ks: Seq<Seq<char>>, counts: Map<Seq<char>, int>, length: int) -> Map<Seq<char>, int>
    decreases ks.len(),
{
    if ks.len() == 0 {
        Map::empty()
    } else {
        let m = normalized(ks.drop_last(), counts, length);
        let k = ks.last();
        if utf8_len(k) >= length {
            add_each(m, byte_windows(k, length), counts[k])
        } else {
            m
        }
    }
}

/// The sum of all that `normalized` adds.
pub open spec fn normalized_total(ks: Seq<Seq<char>>, counts: Map<Seq<char>, int>, length: int) -> int
    decreases ks.len(),
{
    if ks.len() == 0 {
        0
    } else {
        let k = ks.last();
        normalized_total(ks.drop_last(), counts, length) + if utf8_len(k) >= length {
            counts[k] * byte_windows(k, length).len()
        } else {
            0
        }
    }
}

/// The number of keys of fewer than `length` bytes in UTF-8.
pub open spec fn too_short(ks: Seq<Seq<char>>, length: int) -> int
    decreases ks.len(),
{
    if ks.len() == 0 {
        0
    } else {
        too_short(ks.drop_last(), length) + if utf8_len(ks.last()) < length {
            1int
        } else {
            0
        }
    }
}

proof fn lemma_normalized_total_prefix(ks: Seq<Seq<char>>, counts: Map<Seq<char>, int>, length: int, i: int)
    requires
        0 <= i <= ks.len(),
        forall|k: Seq<char>| #[trigger] counts.contains_key(k) ==> counts[k] >= 0,
        forall|t: int| 0 <= t < ks.len() ==> counts.contains_key(#[trigger] ks[t]),
    ensures
        0 <= normalized_total(ks.take(i), counts, length) <= normalized_total(ks, counts, length),
    decreases ks.len(),
{
    if ks.len() == 0 {
        assert(ks.take(i) =~= ks);
    } else {
        let prev = ks.drop_last();
        let k = ks.last();
        assert(counts.contains_key(ks[ks.len() - 1]));
        let c = counts[k];
        let wl = byte_windows(k, length).len() as int;
        assert(0 <= c * wl) by (nonlinear_arith)
            requires
                0 <= c,
                0 <= wl,
        ;
        assert forall|t: int| 0 <= t < prev.len() implies counts.contains_key(#[trigger] prev[t]) by {
            assert(prev[t] == ks[t]);
        }
        if i == ks.len() {
            assert(ks.take(i) =~= ks);
            lemma_normalized_total_prefix(prev, counts, length, 0);
        } else {
            assert(prev.take(i) =~= ks.take(i));
            lemma_normalized_total_prefix(prev, counts, length, i);
        }
    }
}

/// Spreads the counts of a list over n-grams: each key of at least `length`
/// bytes in UTF-8 adds its count to the text of each of its byte ranges
/// `i..i + length`, for `i` below its number of characters less `length`
/// (see `byte_windows`; on ASCII keys, each window of `length` characters but
/// the last); texts with a character beyond 128 are left out. Also gives the
/// number of keys that were too short.
pub fn normalize_ngram_list(existing_ngram_list: NgramList, length: usize) -> (r: (NgramList, usize))
    requires
        existing_ngram_list.map.wf(),
        forall|k: Seq<char>|
            #[trigger] existing_ngram_list.map@.contains_key(k) && utf8_len(k) >= length ==> byte_windows_ok(
                k,
                length as int,
            ),
        normalized_total(existing_ngram_list.map.keys(), existing_ngram_list.map@, length as int) <= usize::MAX,
    ensures
        r.0.map.wf(),
        r.0.gram == length,
        r.0.map@ == normalized(existing_ngram_list.map.keys(), existing_ngram_list.map@, length as int),
        r.1 == too_short(existing_ngram_list.map.keys(), length as int),
{
    let src = &existing_ngram_list.map;
    let ghost ks = src.keys();
    let ghost counts = src@;
    let ghost total = normalized_total(ks, counts, length as int);
    proof {
        src.lemma_keys();
        assert(ks.take(0) =~= Seq::<Seq<char>>::empty());
    }
    let mut list = NgramList::new();
    let mut missed: usize = 0;
    let mut i: usize = 0;
    while i < src.len()
        invariant
            i <= ks.len(),
            src.wf(),
            ks == src.keys(),
            counts == src@,
            total == normalized_total(ks, counts, length as int),
            total <= usize::MAX,
            forall|k: Seq<char>| #[trigger] counts.contains_key(k) ==> counts[k] >= 0,
            forall|t: int| 0 <= t < ks.len() ==> counts.contains_key(#[trigger] ks[t]),
            forall|k: Seq<char>|
                #[trigger] counts.contains_key(k) && utf8_len(k) >= length ==> byte_windows_ok(k, length as int),
            list.map.wf(),
            list.gram == 0,
            list.map@ == normalized(ks.take(i as int), counts, length as int),
            forall|k: Seq<char>| #[trigger] list.map@.contains_key(k) ==> list.map@[k] <= normalized_total(
                ks.take(i as int),
                counts,
                length as int,
            ),
            missed == too_short(ks.take(i as int), length as int),
            missed <= i,
        decreases ks.len() - i,
    {
        let (key, val) = src.entry_at(i);
        let kc = chars_of(key.as_str());
        let ghost before = ks.take(i as int);
        let ghost base = normalized_total(before, counts, length as int);
        proof {
            assert(ks.take(i + 1).drop_last() =~= before);
            assert(ks.take(i + 1).last() == kc@);
            lemma_normalized_total_prefix(ks, counts, length as int, i + 1);
            lemma_normalized_total_prefix(ks, counts, length as int, i as int);
        }
        if !utf8_len_below(kc.as_slice(), length) {
            proof {
                assert(counts.contains_key(kc@));
            }
            let ranges = byte_window_ranges(kc.as_slice(), length).unwrap();
            let n = ranges.len();
            let ghost ws = byte_windows(kc@, length as int);
            let ghost start = list.map@;
            let mut j: usize = 0;
            assert(ws.take(0) =~= Seq::<Seq<char>>::empty());
            while j < n
                invariant
                    j <= n,
                    n == ranges@.len(),
                    n == ws.len(),
                    ws == byte_windows(kc@, length as int),
                    forall|t: int|
                        0 <= t < ranges@.len() ==> #[trigger] ranges@[t].0 <= ranges@[t].1 <= kc@.len()
                            && kc@.subrange(ranges@[t].0 as int, ranges@[t].1 as int) == ws[t],
                    0 <= val,
                    0 <= base,
                    base + val * n <= usize::MAX,
                    list.map.wf(),
                    list.gram == 0,
                    list.map@ == add_each(start, ws.take(j as int), val as int),
                    forall|k: Seq<char>| #[trigger] list.map@.contains_key(k) ==> list.map@[k] <= base + val * j,
                decreases n - j,
            {
                let (from, to) = ranges[j];
                let w = sub_chars(kc.as_slice(), from, to);
                proof {
                    assert(ws.take(j + 1).drop_last() =~= ws.take(j as int));
                    assert(ws.take(j + 1).last() == w@);
                    assert(val * j + val == val * (j + 1)) by (nonlinear_arith);
                    assert(val * (j + 1) <= val * n) by (nonlinear_arith)
                        requires
                            j + 1 <= n,
                            0 <= val,
                    ;
                }
                if within_128(w.as_slice()) {
                    let ghost old_map = list.map@;
                    list.add_sized(string_from_chars(w.as_slice()), val);
                    proof {
                        assert forall|k: Seq<char>| #[trigger] list.map@.contains_key(k) implies list.map@[k] <= base + val * (
                        j + 1) by {
                            if k != w@ {
                                assert(old_map.contains_key(k));
                            }
                        }
                    }
                }
                j += 1;
            }
            proof {
                assert(ws.take(j as int) =~= ws);
            }
        } else {
            missed += 1;
        }
        i += 1;
    }
    proof {
        assert(ks.take(i as int) =~= ks);
    }
    (NgramList { map: list.map, gram: length }, missed)
}

/// Accepts the texts made only of ASCII letters and spaces.
pub open spec fn letters_filter() -> spec_fn(Seq<char>) -> bool {
    |w: Seq<char>| all_letters_or_spaces(w)
}

/// The text tested for a corpus item shorter than the n-gram length: its
/// lower-case form, then the decimal form of `length` padded with spaces to
/// `length` characters (what `format!("{}{:<indent$}", item, indent = length)`
/// writes, the named width also being taken as the second argument).
pub open spec fn short_item_text(lower: Seq<char>, length: nat) -> Seq<char> {
    lower + pad_right(decimal(length), length)
}

/// A short item's text holds a digit, so it is never made only of letters and spaces.
pub proof fn lemma_short_item_never_counted(lower: Seq<char>, length: nat)
    ensures
        !all_letters_or_spaces(short_item_text(lower, length)),
{
    lemma_decimal_digits(length);
    let t = short_item_text(lower, length);
    let d = decimal(length);
    assert(t[lower.len() as int] == d[0]);
    assert(is_digit(d[0]));
    assert(!is_letter_or_space(t[lower.len() as int]));
}

/// The texts tested for one corpus item by `generate_ngram_list`: nothing for
/// an item with a character beyond 128; the short-item text for an item shorter
/// than `length`; otherwise every window of `length` characters of its
/// lower-case form but the last.
pub open spec fn item_units(item: Seq<char>, length: int) -> Seq<Seq<char>> {
    if !all_within_128(item) {
        seq![]
    } else if item.len() < length {
        seq![short_item_text(ascii_lowercase(item), length as nat)]
    } else {
        windows(ascii_lowercase(item), length)
    }
}

/// The texts tested for each corpus item in turn.
pub open spec fn corpus_units(items: Seq<Seq<char>>, length: int) -> Seq<Seq<char>>
    decreases items.len(),
{
    if items.len() == 0 {
        seq![]
    } else {
        corpus_units(items.drop_last(), length) + item_units(items.last(), length)
    }
}

proof fn lemma_corpus_units_prefix(items: Seq<Seq<char>>, length: int, i: int)
    requires
        0 <= i <= items.len(),
    ensures
        corpus_units(items.take(i), length).len() <= corpus_units(items, length).len(),
    decreases items.len(),
{
    if i == items.len() {
        assert(items.take(i) =~= items);
    } else {
        assert(items.drop_last().take(i) =~= items.take(i));
        lemma_corpus_units_prefix(items.drop_last(), length, i);
    }
}

/// Adds to `list` each text of `ws` made only of letters and spaces.
fn tally_letters_into(list: &mut NgramList, ws: &Vec<Vec<char>>, Ghost(prev): Ghost<Seq<Seq<char>>>)
    requires
        old(list).map.wf(),
        old(list).map@ == tally_where(prev, letters_filter()),
        prev.len() + ws.len() <= usize::MAX,
    ensures
        final(list).map.wf(),
        final(list).map@ == tally_where(prev + views(ws@), letters_filter()),
        final(list).gram == old(list).gram,
{
    let ghost keep = letters_filter();
    let ghost g = list.gram;
    let mut j: usize = 0;
    assert(prev + views(ws@).take(0) =~= prev);
    while j < ws.len()
        invariant
            j <= ws.len(),
            keep == letters_filter(),
            list.map.wf(),
            list.map@ == tally_where(prev + views(ws@).take(j as int), keep),
            prev.len() + ws.len() <= usize::MAX,
            list.gram == g,
        decreases ws.len() - j,
    {
        let ghost before = prev + views(ws@).take(j as int);
        proof {
            lemma_tally_bounded(before, keep);
            assert(prev + views(ws@).take(j + 1) =~= before.push(ws@[j as int]@));
            lemma_tally_push(before, ws@[j as int]@, keep);
        }
        if letters_or_spaces(ws[j].as_slice()) {
            let key = string_from_chars(ws[j].as_slice());
            list.add(key);
        }
        j += 1;
    }
    assert(views(ws@).take(ws.len() as int) =~= views(ws@));
}

/// The texts tested for one item (see `item_units`).
fn item_texts(item: &Vec<char>, length: usize) -> (r: Vec<Vec<char>>)
    requires
        all_within_128(item@) ==> all_ascii(item@),
    ensures
        views(r@) == item_units(item@, length as int),
{
    let mut r: Vec<Vec<char>> = Vec::new();
    if !within_128(item.as_slice()) {
        assert(views(r@) =~= item_units(item@, length as int));
        return r;
    }
    let lower = to_lowercase(item.as_slice());
    if item.len() < length {
        let mut text = lower;
        let mut digits = decimal_digits(length);
        pad_to_width(&mut digits, length);
        text.append(&mut digits);
        r.push(text);
        assert(views(r@) =~= item_units(item@, length as int));
    } else {
        let ghost ws = windows(lower@, length as int);
        let n = lower.len() - length;
        assert(lower@.len() == item@.len());
        let mut i: usize = 0;
        while i < n
            invariant
                i <= n,
                n == lower@.len() - length,
                length <= lower@.len(),
                lower@.len() <= usize::MAX,
                ws == windows(lower@, length as int),
                views(r@) == ws.take(i as int),
            decreases n - i,
        {
            let w = sub_chars(lower.as_slice(), i, i + length);
            proof {
                assert(ws.take(i + 1) =~= ws.take(i as int).push(w@));
                assert(views(r@.push(w)) =~= views(r@).push(w@));
            }
            r.push(w);
            i += 1;
        }
        assert(ws.take(i as int) =~= ws);
    }
    r
}

/// Counts the n-grams of `length` letters of a list of words. Words with a
/// character beyond 128 are skipped; each other word is lower-cased and every
/// window of `length` characters of it but the last is counted when it is made
/// only of letters and spaces. A word shorter than `length` is tested as its
/// lower-case form followed by the padded decimal form of `length`, which is
/// never counted (see `lemma_short_item_never_counted`).
pub fn generate_ngram_list(corpus: Vec<String>, length: usize) -> (r: NgramList)
    requires
        forall|i: int| 0 <= i < corpus@.len() ==> all_within_128(#[trigger] corpus@[i]@) ==> all_ascii(corpus@[i]@),
        corpus_units(string_views(corpus@), length as int).len() <= usize::MAX,
    ensures
        r.map.wf(),
        r.gram == length,
        r.map@ == tally_where(corpus_units(string_views(corpus@), length as int), letters_filter()),
{
    let ghost items = string_views(corpus@);
    let mut list = NgramList::new();
    let mut i: usize = 0;
    assert(items.take(0) =~= Seq::<Seq<char>>::empty());
    while i < corpus.len()
        invariant
            i <= corpus@.len(),
            items == string_views(corpus@),
            forall|t: int| 0 <= t < corpus@.len() ==> all_within_128(#[trigger] corpus@[t]@) ==> all_ascii(corpus@[t]@),
            corpus_units(items, length as int).len() <= usize::MAX,
            list.map.wf(),
            list.gram == 0,
            list.map@ == tally_where(corpus_units(items.take(i as int), length as int), letters_filter()),
        decreases corpus@.len() - i,
    {
        let item = chars_of(corpus[i].as_str());
        let texts = item_texts(&item, length);
        proof {
            assert(items.take(i + 1).drop_last() =~= items.take(i as int));
            assert(items[i as int] == corpus@[i as int]@);
            lemma_corpus_units_prefix(items, length as int, i + 1);
        }
        tally_letters_into(&mut list, &texts, Ghost(corpus_units(items.take(i as int), length as int)));
        i += 1;
    }
    assert(items.take(i as int) =~= items);
    NgramList { map: list.map, gram: length }
}

/// What the relation table holds for one trigram: how often it was seen, and
/// the counts of the trigrams seen two places after it.
pub type RelationView = (int, Map<Seq<char>, int>);

/// The entry of `k`, or a zero frequency and no followers where it has none.
pub open spec fn rel_get(m: Map<Seq<char>, RelationView>, k: Seq<char>) -> RelationView {
    if m.contains_key(k) {
        m[k]
    } else {
        (0, Map::empty())
    }
}

/// `m` with the frequency of `k` raised by one.
pub open spec fn rel_bump(m: Map<Seq<char>, RelationView>, k: Seq<char>) -> Map<Seq<char>, RelationView> {
    m.insert(k, (rel_get(m, k).0 + 1, rel_get(m, k).1))
}

/// `m` with `next` counted once more among the followers of `k`.
pub open spec fn rel_follow(m: Map<Seq<char>, RelationView>, k: Seq<char>, next: Seq<char>) -> Map<Seq<char>, RelationView> {
    m.insert(k, (rel_get(m, k).0, bump(rel_get(m, k).1, next, 1)))
}

/// Every frequency and every follower count of `m` is at most `b`.
pub open spec fn counts_at_most(m: Map<Seq<char>, RelationView>, b: int) -> bool {
    forall|k: Seq<char>| #[trigger] m.contains_key(k) ==> m[k].0 <= b && forall|k2: Seq<char>| #[trigger] m[k].1.contains_key(k2) ==> m[k].1[k2] <= b
}

/// A trigram, how often it was seen, and the trigrams seen after it.
pub struct NgramListRelation {
    pub ngram: String,
    pub frequency: usize,
    pub after_map: NgramList,
}

impl NgramListRelation {
    /// A relation for `ngram` with the given frequency and no followers.
    pub fn new(ngram: String, frequency: usize) -> (r: NgramListRelation)
        ensures
            r.ngram@ == ngram@,
            r.frequency == frequency,
            r.after_map.map.wf(),
            r.after_map.map@ == Map::<Seq<char>, int>::empty(),
            r.after_map.gram == 0,
    {
        NgramListRelation { ngram, frequency, after_map: NgramList::new() }
    }
}

/// Relations keyed by their trigram.
pub struct RelationTable {
    index: StringHashMap<usize>,
    entries: Vec<NgramListRelation>,
}

impl View for RelationTable {
    type V = Map<Seq<char>, RelationView>;

    closed spec fn view(&self) -> Map<Seq<char>, RelationView> {
        Map::new(
            |k: Seq<char>| self.index@.contains_key(k),
            |k: Seq<char>|
                (
                    self.entries@[self.index@[k] as int].frequency as int,
                    self.entries@[self.index@[k] as int].after_map.map@,
                ),
        )
    }
}

impl RelationTable {
    /// The index and the entries agree, and every follower table is well formed.
    pub closed spec fn wf(&self) -> bool {
        &&& forall|i: int|
            0 <= i < self.entries@.len() ==> #[trigger] self.index@.contains_key(self.entries@[i].ngram@)
                && self.index@[self.entries@[i].ngram@] == i
        &&& forall|k: Seq<char>|
            #[trigger] self.index@.contains_key(k) ==> (self.index@[k] as int) < self.entries@.len()
                && self.entries@[self.index@[k] as int].ngram@ == k
        &&& forall|i: int| 0 <= i < self.entries@.len() ==> (#[trigger] self.entries@[i]).after_map.map.wf()
    }

    /// The trigrams, in the order in which they were first seen.
    pub closed spec fn keys(&self) -> Seq<Seq<char>> {
        self.entries@.map_values(|e: NgramListRelation| e.ngram@)
    }

    /// An empty table.
    pub fn new() -> (r: RelationTable)
        ensures
            r.wf(),
            r@ == Map::<Seq<char>, RelationView>::empty(),
    {
        let r = RelationTable { index: StringHashMap::new(), entries: Vec::new() };
        assert(r@ =~= Map::<Seq<char>, RelationView>::empty());
        r
    }

    /// The number of trigrams.
    pub fn len(&self) -> (r: usize)
        requires
            self.wf(),
        ensures
            r == self@.dom().len(),
    {
        proof {
            self.lemma_keys();
        }
        self.entries.len()
    }

    /// The keys are those of the view, each once.
    pub proof fn lemma_keys(&self)
        requires
            self.wf(),
        ensures
            self.keys().no_duplicates(),
            forall|k: Seq<char>| #[trigger] self@.contains_key(k) <==> self.keys().contains(k),
            self@.dom().finite(),
            self@.dom().len() == self.keys().len(),
    {
        let ks = self.keys();
        assert forall|i: int, j: int| 0 <= i < ks.len() && 0 <= j < ks.len() && i != j implies ks[i] != ks[j] by {
            assert(self.index@.contains_key(self.entries@[i].ngram@));
            assert(self.index@.contains_key(self.entries@[j].ngram@));
        }
        assert forall|k: Seq<char>| #[trigger] self@.contains_key(k) <==> ks.contains(k) by {
            if self@.contains_key(k) {
                assert(ks[self.index@[k] as int] == k);
            }
            if ks.contains(k) {
                let i = choose|i: int| 0 <= i < ks.len() && ks[i] == k;
                assert(self.index@.contains_key(self.entries@[i].ngram@));
            }
        }
        assert(self@.dom() =~= ks.to_set());
        ks.unique_seq_to_set();
    }

    /// The entry of the `i`-th trigram in the order in which they were first seen.
    pub fn entry_at(&self, i: usize) -> (r: &NgramListRelation)
        requires
            self.wf(),
            i < self.keys().len(),
        ensures
            r.ngram@ == self.keys()[i as int],
            self@.contains_key(r.ngram@),
            r.frequency == self@[r.ngram@].0,
            r.after_map.map.wf(),
            r.after_map.map@ == self@[r.ngram@].1,
    {
        assert(self.index@.contains_key(self.entries@[i as int].ngram@));
        &self.entries[i]
    }

    /// The frequency and followers of `k`, if it has an entry.
    pub fn get(&self, k: &str) -> (r: Option<&NgramListRelation>)
        requires
            self.wf(),
        ensures
            match r {
                Some(rel) => self@.contains_key(k@) && rel.ngram@ == k@ && rel.frequency == self@[k@].0
                    && rel.after_map.map.wf() && rel.after_map.map@ == self@[k@].1,
                None => !self@.contains_key(k@),
            },
    {
        match self.index.get(k) {
            Some(i) => Some(&self.entries[*i]),
            None => None,
        }
    }

    /// The position of the entry for `k`, made with frequency 0 and no
    /// followers where there is none.
    fn entry_index(&mut self, k: &Vec<char>) -> (r: usize)
        requires
            old(self).wf(),
        ensures
            final(self).wf(),
            final(self)@ == old(self)@.insert(k@, rel_get(old(self)@, k@)),
            (r as int) < final(self).entries@.len(),
            final(self).entries@[r as int].ngram@ == k@,
    {
        let key = string_from_chars(k.as_slice());
        match self.index.get(key.as_str()) {
            Some(ip) => {
                let i = *ip;
                proof {
                    assert(self@ =~= self@.insert(k@, rel_get(self@, k@)));
                }
                i
            },
            None => {
                let ghost old_self = *self;
                let pos = self.entries.len();
                self.index.insert(key.clone(), pos);
                self.entries.push(NgramListRelation::new(key, 0));
                proof {
                    assert forall|j: int| 0 <= j < self.entries@.len() implies #[trigger] self.index@.contains_key(
                        self.entries@[j].ngram@,
                    ) && self.index@[self.entries@[j].ngram@] == j by {
                        if j < pos {
                            assert(old_self.index@.contains_key(old_self.entries@[j].ngram@));
                        }
                    }
                    assert forall|kk: Seq<char>| #[trigger] self.index@.contains_key(kk) implies (self.index@[kk] as int)
                        < self.entries@.len() && self.entries@[self.index@[kk] as int].ngram@ == kk by {
                        if kk != k@ {
                            assert(old_self.index@.contains_key(kk));
                        }
                    }
                    assert forall|j: int| 0 <= j < self.entries@.len() implies (#[trigger] self.entries@[j]).after_map.map.wf() by {
                        if j < pos {
                            assert(old_self.entries@[j] == self.entries@[j]);
                        }
                    }
                    assert(self@ =~= old_self@.insert(k@, rel_get(old_self@, k@)));
                }
                pos
            },
        }
    }

    /// Raises the frequency of `k` by one, making its entry where there is none.
    pub fn bump_frequency(&mut self, k: &Vec<char>)
        requires
            old(self).wf(),
            rel_get(old(self)@, k@).0 + 1 <= usize::MAX,
        ensures
            final(self).wf(),
            final(self)@ == rel_bump(old(self)@, k@),
    {
        let i = self.entry_index(k);
        let ghost mid = *self;
        proof {
            assert(mid.index@.contains_key(mid.entries@[i as int].ngram@));
            assert(mid.index@[k@] == i);
            assert(mid@[k@] == rel_get(old(self)@, k@));
        }
        let f = self.entries[i].frequency;
        let mut rel = self.entries.remove(i);
        rel.frequency = f + 1;
        self.entries.insert(i, rel);
        proof {
            assert(self.entries@ =~= mid.entries@.update(i as int, self.entries@[i as int]));
            assert forall|j: int| 0 <= j < self.entries@.len() implies #[trigger] self.index@.contains_key(
                self.entries@[j].ngram@,
            ) && self.index@[self.entries@[j].ngram@] == j by {
                assert(mid.index@.contains_key(mid.entries@[j].ngram@));
            }
            assert forall|j: int| 0 <= j < self.entries@.len() implies (#[trigger] self.entries@[j]).after_map.map.wf() by {
                assert(mid.entries@[j].after_map.map.wf());
            }
            assert(self.index@ == mid.index@);
            assert(self.entries@[i as int].frequency == mid.entries@[i as int].frequency + 1);
            assert(self.entries@[i as int].after_map == mid.entries@[i as int].after_map);
            assert(mid@ == old(self)@.insert(k@, rel_get(old(self)@, k@)));
            assert(self@.dom() =~= mid@.dom());
            assert(self@.dom() =~= rel_bump(old(self)@, k@).dom());
            assert(self@[k@] == rel_bump(old(self)@, k@)[k@]);
            let target = rel_bump(old(self)@, k@);
            assert forall|kk: Seq<char>| #[trigger] self@.contains_key(kk) implies self@[kk] == target[kk] by {
                if kk != k@ {
                    assert(mid.index@.contains_key(kk));
                    assert(mid.index@[kk] != i);
                    assert(self@[kk] == mid@[kk]);
                }
            }
            assert(self@ =~= target);
        }
    }

    /// Counts `next` once more among the followers of `k`, making the entry of
    /// `k` where there is none.
    pub fn add_follower(&mut self, k: &Vec<char>, next: &Vec<char>)
        requires
            old(self).wf(),
            count_of(rel_get(old(self)@, k@).1, next@) + 1 <= usize::MAX,
        ensures
            final(self).wf(),
            final(self)@ == rel_follow(old(self)@, k@, next@),
    {
        let i = self.entry_index(k);
        let ghost mid = *self;
        proof {
            assert(mid.index@.contains_key(mid.entries@[i as int].ngram@));
            assert(mid.index@[k@] == i);
            assert(mid@[k@] == rel_get(old(self)@, k@));
            assert(mid.entries@[i as int].after_map.map.wf());
        }
        let mut rel = self.entries.remove(i);
        rel.after_map.add(string_from_chars(next.as_slice()));
        self.entries.insert(i, rel);
        proof {
            assert(self.entries@ =~= mid.entries@.update(i as int, self.entries@[i as int]));
            assert forall|j: int| 0 <= j < self.entries@.len() implies #[trigger] self.index@.contains_key(
                self.entries@[j].ngram@,
            ) && self.index@[self.entries@[j].ngram@] == j by {
                assert(mid.index@.contains_key(mid.entries@[j].ngram@));
            }
            assert forall|j: int| 0 <= j < self.entries@.len() implies (#[trigger] self.entries@[j]).after_map.map.wf() by {
                assert(mid.entries@[j].after_map.map.wf());
            }
            assert(mid@ == old(self)@.insert(k@, rel_get(old(self)@, k@)));
            assert(self@.dom() =~= mid@.dom());
            let target = rel_follow(old(self)@, k@, next@);
            assert(self@[k@] == target[k@]);
            assert forall|kk: Seq<char>| #[trigger] self@.contains_key(kk) implies self@[kk] == target[kk] by {
                if kk != k@ {
                    assert(mid.index@.contains_key(kk));
                    assert(mid.index@[kk] != i);
                    assert(self@[kk] == mid@[kk]);
                }
            }
            assert(self@ =~= target);
        }
    }
}

/// The entries of `m` whose trigram is made of letters and spaces only.
pub open spec fn letters_part(m: Map<Seq<char>, RelationView>) -> Map<Seq<char>, RelationView> {
    Map::new(|k: Seq<char>| m.contains_key(k) && all_letters_or_spaces(k), |k: Seq<char>| m[k])
}

impl RelationTable {
    /// Adds the relation of a trigram that has no entry yet.
    pub fn push_new(&mut self, rel: NgramListRelation)
        requires
            old(self).wf(),
            !old(self)@.contains_key(rel.ngram@),
            rel.after_map.map.wf(),
        ensures
            final(self).wf(),
            final(self)@ == old(self)@.insert(rel.ngram@, (rel.frequency as int, rel.after_map.map@)),
    {
        let ghost old_self = *self;
        let ghost k = rel.ngram@;
        let ghost v = (rel.frequency as int, rel.after_map.map@);
        let pos = self.entries.len();
        self.index.insert(rel.ngram.clone(), pos);
        self.entries.push(rel);
        proof {
            assert forall|j: int| 0 <= j < self.entries@.len() implies #[trigger] self.index@.contains_key(
                self.entries@[j].ngram@,
            ) && self.index@[self.entries@[j].ngram@] == j by {
                if j < pos {
                    assert(old_self.index@.contains_key(old_self.entries@[j].ngram@));
                }
            }
            assert forall|kk: Seq<char>| #[trigger] self.index@.contains_key(kk) implies (self.index@[kk] as int)
                < self.entries@.len() && self.entries@[self.index@[kk] as int].ngram@ == kk by {
                if kk != k {
                    assert(old_self.index@.contains_key(kk));
                }
            }
            assert forall|j: int| 0 <= j < self.entries@.len() implies (#[trigger] self.entries@[j]).after_map.map.wf() by {
                if j < pos {
                    assert(old_self.entries@[j] == self.entries@[j]);
                }
            }
            let target = old_self@.insert(k, v);
            assert forall|kk: Seq<char>| #[trigger] self@.contains_key(kk) implies self@[kk] == target[kk] by {
                if kk != k {
                    assert(old_self.index@.contains_key(kk));
                }
            }
            assert(self@ =~= target);
        }
    }

    /// Keeps only the entries whose trigram is made of letters and spaces.
    pub fn retain_letters(&mut self)
        requires
            old(self).wf(),
        ensures
            final(self).wf(),
            final(self)@ == letters_part(old(self)@),
    {
        let mut taken = RelationTable::new();
        std::mem::swap(&mut taken, self);
        let ghost ov = taken@;
        let ghost ks = taken.keys();
        let ghost es = taken.entries@;
        proof {
            taken.lemma_keys();
            assert forall|j: int| 0 <= j < es.len() implies #[trigger] ov.contains_key(ks[j]) && ov[ks[j]] == (
            es[j].frequency as int, es[j].after_map.map@) && es[j].after_map.map.wf() by {
                assert(taken.index@.contains_key(taken.entries@[j].ngram@));
            }
        }
        let mut entries = taken.entries;
        assert(entries@.take(entries@.len() as int) =~= es);
        assert(ks.take(ks.len() as int) =~= ks);
        while entries.len() > 0
            invariant
                es.len() == ks.len(),
                entries@ == es.take(entries@.len() as int),
                entries@.len() <= es.len(),
                ks.no_duplicates(),
                forall|j: int| 0 <= j < ks.len() ==> ks[j] == es[j].ngram@,
                forall|k: Seq<char>| #[trigger] ov.contains_key(k) <==> ks.contains(k),
                forall|j: int| 0 <= j < es.len() ==> #[trigger] ov.contains_key(ks[j]) && ov[ks[j]] == (
                    es[j].frequency as int,
                    es[j].after_map.map@,
                ) && es[j].after_map.map.wf(),
                self.wf(),
                forall|k: Seq<char>| #[trigger] self@.contains_key(k) <==> (ov.contains_key(k)
                    && all_letters_or_spaces(k) && !ks.take(entries@.len() as int).contains(k)),
                forall|k: Seq<char>| #[trigger] self@.contains_key(k) ==> self@[k] == ov[k],
            decreases entries@.len(),
        {
            let ghost r = entries@.len() as int;
            let rel = entries.pop().unwrap();
            let ghost k = rel.ngram@;
            proof {
                assert(rel == es[r - 1]);
                assert(k == ks[r - 1]);
                assert(ov.contains_key(ks[r - 1]));
                assert(ks.take(r)[r - 1] == k);
                assert(entries@ =~= es.take(r - 1));
                assert(ks.take(r) =~= ks.take(r - 1).push(k));
                assert(!ks.take(r - 1).contains(k)) by {
                    if ks.take(r - 1).contains(k) {
                        let t = choose|t: int| 0 <= t < r - 1 && #[trigger] ks.take(r - 1)[t] == k;
                        assert(ks[t] == ks[r - 1]);
                    }
                }
                assert forall|kk: Seq<char>| #[trigger] ks.take(r).contains(kk) <==> (ks.take(r - 1).contains(kk) || kk == k) by {
                    let a = ks.take(r);
                    let b = ks.take(r - 1);
                    if a.contains(kk) && kk != k {
                        let t = choose|t: int| 0 <= t < a.len() && #[trigger] a[t] == kk;
                        assert(b[t] == kk);
                    }
                    if b.contains(kk) {
                        let t = choose|t: int| 0 <= t < b.len() && #[trigger] b[t] == kk;
                        assert(a[t] == kk);
                    }
                    if kk == k {
                        assert(a[r - 1] == kk);
                    }
                }
            }
            let name = chars_of(rel.ngram.as_str());
            if letters_or_spaces(name.as_slice()) {
                let ghost before = self@;
                self.push_new(rel);
                proof {
                    assert forall|kk: Seq<char>| #[trigger] self@.contains_key(kk) implies self@[kk] == ov[kk] by {
                        if kk != k {
                            assert(before.contains_key(kk));
                        }
                    }
                }
            }
        }
        proof {
            assert(ks.take(0) =~= Seq::<Seq<char>>::empty());
            assert(self@ =~= letters_part(ov));
        }
    }
}

/// The text whose trigrams `NgramListRelationMapping::add` takes: a text of
/// fewer than 3 UTF-8 bytes is lower-cased (ASCII lower-casing on ASCII
/// text) and padded with spaces to 3 characters; any other is taken as it is.
pub open spec fn padded_ngram(ngram: Seq<char>) -> Seq<char> {
    if utf8_len(ngram) < 3 {
        if all_ascii(ngram) {
            pad_right(ascii_lowercase(ngram), 3)
        } else {
            pad_right(lowercase(ngram), 3)
        }
    } else {
        ngram
    }
}

/// How a trigram is recorded: lower-cased when it is made of letters and
/// spaces only, as it is otherwise.
pub open spec fn triple_entry(t: Seq<char>) -> Seq<char> {
    if all_letters_or_spaces(t) {
        ascii_lowercase(t)
    } else {
        t
    }
}

/// Three spaces.
pub open spec fn blank_triple(t: Seq<char>) -> bool {
    t[0] == ' ' && t[1] == ' ' && t[2] == ' '
}

/// The recorded trigrams among the first `k` consecutive triples of `p`
/// (triples of three spaces are left out).
pub open spec fn triple_list(p: Seq<char>, k: int) -> Seq<Seq<char>>
    decreases k,
{
    if k <= 0 {
        seq![]
    } else {
        let prev = triple_list(p, k - 1);
        let t = p.subrange(k - 1, k + 2);
        if blank_triple(t) {
            prev
        } else {
            prev.push(triple_entry(t))
        }
    }
}

/// The text holds a space.
pub open spec fn holds_space(t: Seq<char>) -> bool {
    exists|i: int| 0 <= i < t.len() && t[i] == ' '
}

/// The trigrams that `NgramListRelationMapping::add` records for `ngram`:
/// those of its padded form (see `padded_ngram` and `triple_list`), and, when
/// the last of them holds a space, one more made of its last two characters
/// and a space.
pub open spec fn relation_ngrams(ngram: Seq<char>) -> Seq<Seq<char>> {
    let p = padded_ngram(ngram);
    let base = triple_list(p, p.len() - 2);
    if base.len() > 0 && holds_space(base.last()) {
        base.push(seq![base.last()[1], base.last()[2], ' '])
    } else {
        base
    }
}

/// The effect of the trigram at `index` of `list`: when it is made of letters
/// and spaces, its frequency goes up by one, and the trigram two places after
/// it, when that one is made of letters and spaces and is not the last of the
/// list, is counted among its followers.
pub open spec fn relation_step(m: Map<Seq<char>, RelationView>, list: Seq<Seq<char>>, index: int) -> Map<
    Seq<char>,
    RelationView,
> {
    let ng = list[index];
    if !all_letters_or_spaces(ng) {
        m
    } else {
        let m1 = rel_bump(m, ng);
        if index + 2 < list.len() - 1 && all_letters_or_spaces(list[index + 2]) {
            rel_follow(m1, ng, list[index + 2])
        } else {
            m1
        }
    }
}

/// The effect of the first `k` trigrams of `list`, one after the other.
pub open spec fn relation_fold(m: Map<Seq<char>, RelationView>, list: Seq<Seq<char>>, k: int) -> Map<
    Seq<char>,
    RelationView,
>
    decreases k,
{
    if k <= 0 {
        m
    } else {
        relation_step(relation_fold(m, list, k - 1), list, k - 1)
    }
}

/// What `NgramListRelationMapping::add` does to the table.
pub open spec fn relation_add(m: Map<Seq<char>, RelationView>, ngram: Seq<char>) -> Map<Seq<char>, RelationView> {
    relation_fold(m, relation_ngrams(ngram), relation_ngrams(ngram).len() as int)
}

/// No frequency and no follower count of `new` exceeds that of `old` by more than `n`.
pub open spec fn grown_by_at_most(old: Map<Seq<char>, RelationView>, new: Map<Seq<char>, RelationView>, n: int) -> bool {
    forall|k: Seq<char>|
        (#[trigger] rel_get(new, k)).0 <= rel_get(old, k).0 + n && forall|k2: Seq<char>|
            #[trigger] count_of(rel_get(new, k).1, k2) <= count_of(rel_get(old, k).1, k2) + n
}

/// Trigram relations: for each trigram, its frequency and the trigrams that
/// follow it.
pub struct NgramListRelationMapping {
    pub ngrams: RelationTable,
    pub gram: usize,
}

/// Builds the recorded trigram list of `ngram` (see `relation_ngrams`).
fn relation_list(ngram: &Vec<char>) -> (r: Vec<Vec<char>>)
    ensures
        views(r@) == relation_ngrams(ngram@),
        forall|i: int| 0 <= i < r@.len() ==> (#[trigger] r@[i])@.len() == 3,
{
    let padded = if utf8_len_below(ngram.as_slice(), 3) {
        let mut l = to_lowercase(ngram.as_slice());
        pad_to_width(&mut l, 3);
        l
    } else {
        sub_chars(ngram.as_slice(), 0, ngram.len())
    };
    assert(padded@ == padded_ngram(ngram@)) by {
        if utf8_len(ngram@) >= 3 {
            assert(ngram@.subrange(0, ngram@.len() as int) =~= ngram@);
        }
    }
    let ghost p = padded@;
    let mut list: Vec<Vec<char>> = Vec::new();
    let mut i: usize = 0;
    assert(views(list@) =~= triple_list(p, 0));
    let plen = padded.len();
    while i + 2 < plen
        invariant
            plen == padded@.len(),
            p == padded@,
            i + 2 <= padded@.len() || i == 0,
            views(list@) == triple_list(p, i as int),
            forall|j: int| 0 <= j < list@.len() ==> (#[trigger] list@[j])@.len() == 3,
        decreases padded@.len() - i,
    {
        let t = sub_chars(padded.as_slice(), i, i + 3);
        proof {
            assert(triple_list(p, i + 1) == (if blank_triple(t@) {
                triple_list(p, i as int)
            } else {
                triple_list(p, i as int).push(triple_entry(t@))
            }));
        }
        if !(t[0] == ' ' && t[1] == ' ' && t[2] == ' ') {
            if letters_or_spaces(t.as_slice()) {
                let low = to_lowercase(t.as_slice());
                proof {
                    assert(all_ascii(t@));
                    assert(views(list@.push(low)) =~= views(list@).push(low@));
                }
                list.push(low);
            } else {
                proof {
                    assert(views(list@.push(t)) =~= views(list@).push(t@));
                }
                list.push(t);
            }
        }
        i += 1;
    }
    assert(views(list@) == triple_list(p, p.len() - 2)) by {
        if p.len() < 2 {
            assert(triple_list(p, p.len() - 2) == Seq::<Seq<char>>::empty());
        }
    }
    let n = list.len();
    if n > 0 {
        if has_space(list[n - 1].as_slice()) {
            let a = list[n - 1][1];
            let b = list[n - 1][2];
            let mut extra: Vec<char> = Vec::new();
            extra.push(a);
            extra.push(b);
            extra.push(' ');
            proof {
                assert(views(list@)[n - 1] == list@[n - 1]@);
                assert(extra@ =~= seq![a, b, ' ']);
                assert(views(list@.push(extra)) =~= views(list@).push(extra@));
            }
            list.push(extra);
        }
    }
    list
}

impl NgramListRelationMapping {
    /// An empty mapping of length 0.
    pub fn new() -> (r: NgramListRelationMapping)
        ensures
            r.ngrams.wf(),
            r.ngrams@ == Map::<Seq<char>, RelationView>::empty(),
            r.gram == 0,
    {
        NgramListRelationMapping { ngrams: RelationTable::new(), gram: 0 }
    }

    /// Records the trigrams of `ngram` (see `relation_ngrams`): each one made
    /// of letters and spaces has its frequency raised, and counts as a
    /// follower the trigram two places after it, when that one is made of
    /// letters and spaces and is not the last.
    pub fn add(&mut self, ngram: String)
        requires
            old(self).ngrams.wf(),
            counts_at_most(old(self).ngrams@, usize::MAX - relation_ngrams(ngram@).len()),
        ensures
            final(self).ngrams.wf(),
            final(self).gram == old(self).gram,
            final(self).ngrams@ == relation_add(old(self).ngrams@, ngram@),
            grown_by_at_most(old(self).ngrams@, final(self).ngrams@, relation_ngrams(ngram@).len() as int),
    {
        let chars = chars_of(ngram.as_str());
        let list = relation_list(&chars);
        let ghost l = views(list@);
        let ghost start = self.ngrams@;
        let n = list.len();
        let mut index: usize = 0;
        assert(grown_by_at_most(start, start, 0));
        while index < n
            invariant
                n == list@.len(),
                l == views(list@),
                l == relation_ngrams(ngram@),
                index <= n,
                counts_at_most(start, usize::MAX - n),
                self.ngrams.wf(),
                self.gram == old(self).gram,
                self.ngrams@ == relation_fold(start, l, index as int),
                grown_by_at_most(start, self.ngrams@, index as int),
            decreases n - index,
        {
            let ghost before = self.ngrams@;
            proof {
                assert(l[index as int] == list@[index as int]@);
            }
            if letters_or_spaces(list[index].as_slice()) {
                proof {
                    let k = list@[index as int]@;
                    assert(rel_get(before, k).0 <= rel_get(start, k).0 + index);
                    if start.contains_key(k) {
                        assert(start[k].0 <= usize::MAX - n);
                    }
                }
                self.ngrams.bump_frequency(&list[index]);
                let ghost mid = self.ngrams@;
                proof {
                    assert forall|k: Seq<char>| (#[trigger] rel_get(mid, k)).0 <= rel_get(start, k).0 + index + 1
                        && forall|k2: Seq<char>| #[trigger] count_of(rel_get(mid, k).1, k2) <= count_of(rel_get(start, k).1, k2)
                        + index + 1 by {
                        assert(rel_get(before, k).0 <= rel_get(start, k).0 + index);
                        assert forall|k2: Seq<char>| #[trigger] count_of(rel_get(mid, k).1, k2) <= count_of(rel_get(start, k).1, k2)
                            + index + 1 by {
                            assert(count_of(rel_get(before, k).1, k2) <= count_of(rel_get(start, k).1, k2) + index);
                        }
                    }
                }
                if n - 1 > index && n - 1 - index > 2 {
                    let next_index = index + 2;
                    if letters_or_spaces(list[next_index].as_slice()) {
                        proof {
                            let k = list@[index as int]@;
                            let k2 = list@[next_index as int]@;
                            assert(l[next_index as int] == k2);
                            assert(count_of(rel_get(before, k).1, k2) <= count_of(rel_get(start, k).1, k2) + index);
                            assert(count_of(rel_get(mid, k).1, k2) == count_of(rel_get(before, k).1, k2));
                            if start.contains_key(k) && start[k].1.contains_key(k2) {
                                assert(start[k].1[k2] <= usize::MAX - n);
                            }
                        }
                        self.ngrams.add_follower(&list[index], &list[next_index]);
                        proof {
                            let after = self.ngrams@;
                            assert forall|k: Seq<char>| (#[trigger] rel_get(after, k)).0 <= rel_get(start, k).0 + index + 1
                                && forall|k2: Seq<char>| #[trigger] count_of(rel_get(after, k).1, k2) <= count_of(
                                rel_get(start, k).1,
                                k2,
                            ) + index + 1 by {
                                assert(rel_get(mid, k).0 <= rel_get(start, k).0 + index + 1);
                                assert forall|k2: Seq<char>| #[trigger] count_of(rel_get(after, k).1, k2) <= count_of(
                                    rel_get(start, k).1,
                                    k2,
                                ) + index + 1 by {
                                    assert(count_of(rel_get(mid, k).1, k2) <= count_of(rel_get(start, k).1, k2) + index + 1);
                                    assert(count_of(rel_get(before, k).1, k2) <= count_of(rel_get(start, k).1, k2) + index);
                                }
                            }
                        }
                    }
                }
            } else {
                proof {
                    assert forall|k: Seq<char>| (#[trigger] rel_get(before, k)).0 <= rel_get(start, k).0 + index + 1
                        && forall|k2: Seq<char>| #[trigger] count_of(rel_get(before, k).1, k2) <= count_of(rel_get(start, k).1, k2)
                        + index + 1 by {
                        assert(rel_get(before, k).0 <= rel_get(start, k).0 + index);
                        assert forall|k2: Seq<char>| #[trigger] count_of(rel_get(before, k).1, k2) <= count_of(rel_get(start, k).1, k2)
                            + index + 1 by {
                            assert(count_of(rel_get(before, k).1, k2) <= count_of(rel_get(start, k).1, k2) + index);
                        }
                    }
                }
            }
            index += 1;
        }
    }

    /// Drops the trigrams that hold anything but letters and spaces.
    pub fn remove_non_alpha(&mut self)
        requires
            old(self).ngrams.wf(),
        ensures
            final(self).ngrams.wf(),
            final(self).gram == old(self).gram,
            final(self).ngrams@ == letters_part(old(self).ngrams@),
    {
        self.ngrams.retain_letters();
    }
}

/// What one corpus item adds to the relations: an item of at least `length`
/// characters is added as it is; a shorter one is tested as its short-item
/// text (see `short_item_text`), which is added lower-cased if it is made of
/// letters and spaces only (it never is).
pub open spec fn item_relation(m: Map<Seq<char>, RelationView>, item: Seq<char>, length: int) -> Map<Seq<char>, RelationView> {
    if item.len() < length {
        let t = short_item_text(item, length as nat);
        if all_letters_or_spaces(t) {
            relation_add(m, lowercase(t))
        } else {
            m
        }
    } else {
        relation_add(m, item)
    }
}

/// The number of trigrams that one corpus item records.
pub open spec fn item_relation_size(item: Seq<char>, length: int) -> int {
    if item.len() < length {
        let t = short_item_text(item, length as nat);
        if all_letters_or_spaces(t) {
            relation_ngrams(lowercase(t)).len() as int
        } else {
            0
        }
    } else {
        relation_ngrams(item).len() as int
    }
}

/// The relations of the corpus items, added one after the other.
pub open spec fn relation_items(m: Map<Seq<char>, RelationView>, items: Seq<Seq<char>>, length: int) -> Map<
    Seq<char>,
    RelationView,
>
    decreases items.len(),
{
    if items.len() == 0 {
        m
    } else {
        item_relation(relation_items(m, items.drop_last(), length), items.last(), length)
    }
}

/// The number of trigrams that the corpus items record together.
pub open spec fn relation_items_size(items: Seq<Seq<char>>, length: int) -> int
    decreases items.len(),
{
    if items.len() == 0 {
        0
    } else {
        relation_items_size(items.drop_last(), length) + item_relation_size(items.last(), length)
    }
}

proof fn lemma_relation_items_size_prefix(items: Seq<Seq<char>>, length: int, i: int)
    requires
        0 <= i <= items.len(),
    ensures
        0 <= relation_items_size(items.take(i), length) <= relation_items_size(items, length),
    decreases items.len(),
{
    if i == items.len() {
        assert(items.take(i) =~= items);
        if items.len() > 0 {
            lemma_relation_items_size_prefix(items.drop_last(), length, 0);
        }
    } else {
        assert(items.drop_last().take(i) =~= items.take(i));
        lemma_relation_items_size_prefix(items.drop_last(), length, i);
    }
}

proof fn lemma_grown_bound(old: Map<Seq<char>, RelationView>, new: Map<Seq<char>, RelationView>, n: int, b: int)
    requires
        0 <= b,
        counts_at_most(old, b),
        grown_by_at_most(old, new, n),
    ensures
        counts_at_most(new, b + n),
{
    assert forall|k: Seq<char>| #[trigger] new.contains_key(k) implies new[k].0 <= b + n && forall|k2: Seq<char>|
        #[trigger] new[k].1.contains_key(k2) ==> new[k].1[k2] <= b + n by {
        assert(rel_get(new, k).0 <= rel_get(old, k).0 + n);
        assert forall|k2: Seq<char>| #[trigger] new[k].1.contains_key(k2) implies new[k].1[k2] <= b + n by {
            assert(count_of(rel_get(new, k).1, k2) <= count_of(rel_get(old, k).1, k2) + n);
            if old.contains_key(k) && old[k].1.contains_key(k2) {
                assert(old[k].1[k2] <= b);
            }
        }
    }
}

/// Relates the trigrams of a list of words: each word of at least `length`
/// characters is added to the mapping (see `NgramListRelationMapping::add`);
/// a shorter one is tested as its short-item text, which is never added.
/// The mapping has length 0.
pub fn generate_ngram_relation_list(corpus: Vec<String>, length: usize) -> (r: NgramListRelationMapping)
    requires
        relation_items_size(string_views(corpus@), length as int) <= usize::MAX,
    ensures
        r.ngrams.wf(),
        r.gram == 0,
        r.ngrams@ == relation_items(Map::empty(), string_views(corpus@), length as int),
{
    let ghost items = string_views(corpus@);
    let mut mapping = NgramListRelationMapping::new();
    let mut i: usize = 0;
    assert(items.take(0) =~= Seq::<Seq<char>>::empty());
    while i < corpus.len()
        invariant
            i <= corpus@.len(),
            items == string_views(corpus@),
            relation_items_size(items, length as int) <= usize::MAX,
            mapping.ngrams.wf(),
            mapping.gram == 0,
            mapping.ngrams@ == relation_items(Map::empty(), items.take(i as int), length as int),
            counts_at_most(mapping.ngrams@, relation_items_size(items.take(i as int), length as int)),
        decreases corpus@.len() - i,
    {
        let item = chars_of(corpus[i].as_str());
        let ghost before = items.take(i as int);
        let ghost so_far = relation_items_size(before, length as int);
        proof {
            assert(items.take(i + 1).drop_last() =~= before);
            assert(items.take(i + 1).last() == item@);
            assert(items[i as int] == corpus@[i as int]@);
            lemma_relation_items_size_prefix(items, length as int, i + 1);
            lemma_relation_items_size_prefix(items, length as int, i as int);
        }
        let ghost m0 = mapping.ngrams@;
        if item.len() < length {
            let mut text = sub_chars(item.as_slice(), 0, item.len());
            let mut digits = decimal_digits(length);
            pad_to_width(&mut digits, length);
            text.append(&mut digits);
            proof {
                assert(item@.subrange(0, item@.len() as int) =~= item@);
                assert(text@ == short_item_text(item@, length as nat));
            }
            if letters_or_spaces(text.as_slice()) {
                let lower = to_lowercase(text.as_slice());
                let word = string_from_chars(lower.as_slice());
                mapping.add(word);
                proof {
                    lemma_grown_bound(m0, mapping.ngrams@, relation_ngrams(lower@).len() as int, so_far);
                }
            }
        } else {
            let word = corpus[i].clone();
            mapping.add(word);
            proof {
                lemma_grown_bound(m0, mapping.ngrams@, relation_ngrams(item@).len() as int, so_far);
            }
        }
        i += 1;
    }
    assert(items.take(i as int) =~= items);
    mapping
}

} // verus!
