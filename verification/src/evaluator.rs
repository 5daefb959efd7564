//! Building candidate layouts from letter frequencies, and the records used to
//! analyse key positions.
//!
//! The most frequent letters go to the keys with the lowest base penalty:
//! keys are grouped by equal base penalty, each group receives the next most
//! frequent letters, and every arrangement of each group's letters on its keys
//! is combined with every arrangement of the other groups.
use vstd::prelude::*;
use crate::corpus_manager::{NgramList, NgramMap};
use crate::layout::{Finger, Row, NUM_OF_KEYS, key_fingers, key_rows, key_finger_map, key_row_map};
use crate::penalty::{base_penalties, base_penalty_map, BestLayoutsEntry};
use crate::text::{chars_of, string_from_chars};
use itertools::Itertools;

verus! {

/// A letter (as a byte) with the frequency of the n-gram it was seen in.
#[derive(Clone, Copy, Debug, PartialEq, Eq, Hash, Structural)]
pub struct KeyFrequency {
    pub key: u8,
    pub frequency: usize,
}

/// A key position with its base penalty.
#[derive(Clone, Copy, Debug, PartialEq, Eq, Structural)]
pub struct PositionPenalty {
    pub position: u32,
    pub penalty: i64,
}

/// Key positions that share one base penalty.
pub struct PositionGroup {
    pub positions: Vec<u32>,
    pub count: usize,
    pub index: u32,
}

/// A letter placed on a key position.
#[derive(Clone, Copy, Debug, PartialEq, Eq, Structural)]
pub struct KeyPosition {
    pub key: u8,
    pub position: u32,
}

/// A list of placed letters.
pub struct KeyPositionList {
    pub positions: Vec<KeyPosition>,
}

/// Three key positions.
#[allow(non_camel_case_types)]
#[derive(Clone, Copy, Debug, PartialEq, Eq, Structural)]
pub struct tri_pos {
    pub p1: usize,
    pub p2: usize,
    pub p3: usize,
}

/// Two key positions.
#[allow(non_camel_case_types)]
#[derive(Clone, Copy, Debug, PartialEq, Eq, Structural)]
pub struct bi_pos {
    pub p1: usize,
    pub p2: usize,
}

/* ------------------------------------------------------------------ *
 * Letter frequencies                                                 *
 * ------------------------------------------------------------------ */

/// Letters left out of the frequency list: `e` and `t`, which have keys of their own.
pub open spec fn kept_key(b: u8) -> bool {
    b != 101 && b != 116
}

/// The entries of one n-gram: each of its characters (as a byte, truncated)
/// with the n-gram's count, except `e` and `t`.
pub open spec fn word_frequencies(k: Seq<char>, count: usize) -> Seq<KeyFrequency>
    decreases k.len(),
{
    if k.len() == 0 {
        seq![]
    } else {
        let prev = word_frequencies(k.drop_last(), count);
        let b = k.last() as u8;
        if kept_key(b) {
            prev.push(KeyFrequency { key: b, frequency: count })
        } else {
            prev
        }
    }
}

/// The entries of the n-grams `ks`, one n-gram after the other.
pub open spec fn list_frequencies(ks: Seq<Seq<char>>, counts: Map<Seq<char>, int>) -> Seq<KeyFrequency>
    decreases ks.len(),
{
    if ks.len() == 0 {
        seq![]
    } else {
        list_frequencies(ks.drop_last(), counts) + word_frequencies(ks.last(), counts[ks.last()] as usize)
    }
}

/// The letter frequencies of an n-gram list: for each n-gram, in the list's
/// order, each of its characters (as a byte) with the n-gram's count; `e` and
/// `t` are left out.
pub fn key_frequency_list(ngram_list: &NgramList) -> (r: Vec<KeyFrequency>)
    requires
        ngram_list.map.wf(),
    ensures
        r@ == list_frequencies(ngram_list.map.keys(), ngram_list.map@),
{
    let map = &ngram_list.map;
    let ghost ks = map.keys();
    let mut r: Vec<KeyFrequency> = Vec::new();
    let mut i: usize = 0;
    assert(ks.take(0) =~= Seq::<Seq<char>>::empty());
    while i < map.len()
        invariant
            map.wf(),
            ks == map.keys(),
            i <= ks.len(),
            r@ == list_frequencies(ks.take(i as int), map@),
        decreases ks.len() - i,
    {
        let (key, count) = map.entry_at(i);
        let chars = chars_of(key.as_str());
        let ghost before = r@;
        let mut j: usize = 0;
        assert(chars@.take(0) =~= Seq::<char>::empty());
        assert(before + word_frequencies(chars@.take(0), count) =~= before);
        while j < chars.len()
            invariant
                j <= chars@.len(),
                r@ == before + word_frequencies(chars@.take(j as int), count),
            decreases chars@.len() - j,
        {
            let b = chars[j] as u8;
            assert(chars@.take(j + 1).drop_last() =~= chars@.take(j as int));
            if b != 101 && b != 116 {
                r.push(KeyFrequency { key: b, frequency: count });
            }
            j += 1;
            assert(r@ =~= before + word_frequencies(chars@.take(j as int), count));
        }
        assert(chars@.take(j as int) =~= chars@);
        assert(ks.take(i + 1).drop_last() =~= ks.take(i as int));
        assert(ks.take(i + 1).last() == key@);
        i += 1;
    }
    assert(ks.take(i as int) =~= ks);
    r
}

/// `s` (sorted from most to least frequent) with `x` put after every entry
/// at least as frequent.
pub open spec fn insert_desc(s: Seq<KeyFrequency>, x: KeyFrequency) -> Seq<KeyFrequency>
    decreases s.len(),
{
    if s.len() == 0 || s.last().frequency >= x.frequency {
        s.push(x)
    } else {
        insert_desc(s.drop_last(), x).push(s.last())
    }
}

/// `s` sorted from most to least frequent, entries of equal frequency in
/// their order in `s` (a stable sort).
pub open spec fn sort_desc(s: Seq<KeyFrequency>) -> Seq<KeyFrequency>
    decreases s.len(),
{
    if s.len() == 0 {
        seq![]
    } else {
        insert_desc(sort_desc(s.drop_last()), s.last())
    }
}

proof fn lemma_insert_desc_at(s: Seq<KeyFrequency>, x: KeyFrequency, j: int)
    requires
        0 <= j <= s.len(),
        forall|k: int| j <= k < s.len() ==> (#[trigger] s[k]).frequency < x.frequency,
        j == 0 || s[j - 1].frequency >= x.frequency,
    ensures
        insert_desc(s, x) == s.insert(j, x),
    decreases s.len() - j,
{
    if j == s.len() {
        assert(s.push(x) =~= s.insert(j, x));
    } else {
        let t = s.drop_last();
        assert forall|k: int| j <= k < t.len() implies (#[trigger] t[k]).frequency < x.frequency by {
            assert(t[k] == s[k]);
        }
        if j > 0 {
            assert(t[j - 1] == s[j - 1]);
        }
        lemma_insert_desc_at(t, x, j);
        assert(s.last().frequency < x.frequency);
        assert(t.insert(j, x).push(s.last()) =~= s.insert(j, x));
    }
}

/// The entries are in descending order of frequency.
pub open spec fn sorted_desc(s: Seq<KeyFrequency>) -> bool {
    forall|i: int, j: int| 0 <= i < j < s.len() ==> (#[trigger] s[i]).frequency >= (#[trigger] s[j]).frequency
}

proof fn lemma_insert_desc_sorted(t: Seq<KeyFrequency>, x: KeyFrequency)
    requires
        sorted_desc(t),
    ensures
        sorted_desc(insert_desc(t, x)),
        insert_desc(t, x).to_multiset() == t.to_multiset().insert(x),
        forall|i: int| 0 <= i < insert_desc(t, x).len() ==> (#[trigger] insert_desc(t, x)[i]) == x || t.contains(insert_desc(t, x)[i]),
    decreases t.len(),
{
    broadcast use vstd::seq_lib::group_to_multiset_ensures;
    if t.len() == 0 || t.last().frequency >= x.frequency {
        let r = t.push(x);
        assert forall|i: int| 0 <= i < r.len() implies (#[trigger] r[i]) == x || t.contains(r[i]) by {
            if i < t.len() {
                assert(r[i] == t[i]);
            }
        }
    } else {
        let u = t.drop_last();
        assert(sorted_desc(u)) by {
            assert forall|i: int, j: int| 0 <= i < j < u.len() implies (#[trigger] u[i]).frequency >= (#[trigger] u[j]).frequency by {
                assert(u[i] == t[i] && u[j] == t[j]);
            }
        }
        lemma_insert_desc_sorted(u, x);
        let v = insert_desc(u, x);
        let r = v.push(t.last());
        assert(t =~= u.push(t.last()));
        assert forall|i: int| 0 <= i < v.len() implies (#[trigger] v[i]).frequency >= t.last().frequency by {
            if v[i] != x {
                let k = choose|k: int| 0 <= k < u.len() && u[k] == v[i];
                assert(t[k] == u[k]);
            }
        }
        assert forall|i: int, j: int| 0 <= i < j < r.len() implies (#[trigger] r[i]).frequency >= (#[trigger] r[j]).frequency by {
            assert(r[i] == v[i]);
            if j < v.len() {
                assert(r[j] == v[j]);
            }
        }
        assert forall|i: int| 0 <= i < r.len() implies (#[trigger] r[i]) == x || t.contains(r[i]) by {
            if i < v.len() {
                assert(r[i] == v[i]);
                if v[i] != x {
                    let k = choose|k: int| 0 <= k < u.len() && u[k] == v[i];
                    assert(t[k] == u[k]);
                }
            } else {
                assert(r[i] == t[t.len() - 1]);
            }
        }
    }
}

/// Sorting letter frequencies gives them from most to least frequent, each
/// as often as in the input.
pub proof fn lemma_sort_desc(s: Seq<KeyFrequency>)
    ensures
        sorted_desc(sort_desc(s)),
        sort_desc(s).to_multiset() == s.to_multiset(),
    decreases s.len(),
{
    broadcast use vstd::seq_lib::group_to_multiset_ensures;
    if s.len() > 0 {
        lemma_sort_desc(s.drop_last());
        lemma_insert_desc_sorted(sort_desc(s.drop_last()), s.last());
        assert(s =~= s.drop_last().push(s.last()));
    } else {
        assert(sort_desc(s) =~= s);
    }
}

/// Sorts letter frequencies from most to least frequent, keeping the order of
/// equal ones (see `sort_desc`).
pub fn sort_by_frequency(list: &Vec<KeyFrequency>) -> (r: Vec<KeyFrequency>)
    ensures
        r@ == sort_desc(list@),
        r@.len() == list@.len(),
{
    let mut r: Vec<KeyFrequency> = Vec::new();
    let mut i: usize = 0;
    assert(list@.take(0) =~= Seq::<KeyFrequency>::empty());
    while i < list.len()
        invariant
            i <= list@.len(),
            r@ == sort_desc(list@.take(i as int)),
            r@.len() == i,
        decreases list@.len() - i,
    {
        let x = list[i];
        let mut j: usize = r.len();
        while j > 0 && r[j - 1].frequency < x.frequency
            invariant
                j <= r@.len(),
                forall|k: int| j <= k < r@.len() ==> (#[trigger] r@[k]).frequency < x.frequency,
            decreases j,
        {
            j -= 1;
        }
        proof {
            lemma_insert_desc_at(r@, x, j as int);
            assert(list@.take(i + 1).drop_last() =~= list@.take(i as int));
            assert(list@.take(i + 1).last() == x);
        }
        r.insert(j, x);
        i += 1;
    }
    assert(list@.take(i as int) =~= list@);
    r
}

/* ------------------------------------------------------------------ *
 * Key positions grouped by base penalty                              *
 * ------------------------------------------------------------------ */

/// Keys that take no letter from the frequency list: the thumb keys, the
/// top-row index keys and the bottom-row middle keys.
pub open spec fn excluded_position(i: int) -> bool {
    key_fingers()[i] == Finger::Thumb || key_fingers()[i] == Finger::ThumbBottom || (key_fingers()[i]
        == Finger::Index && key_rows()[i] == Row::Top) || (key_fingers()[i] == Finger::Middle && key_rows()[i]
        == Row::Bottom)
}

/// The keys among the first `k` that take letters, with their base
/// penalties, in key order.
pub open spec fn candidate_positions(k: int) -> Seq<PositionPenalty>
    decreases k,
{
    if k <= 0 {
        seq![]
    } else {
        let prev = candidate_positions(k - 1);
        if excluded_position(k - 1) {
            prev
        } else {
            prev.push(PositionPenalty { position: (k - 1) as u32, penalty: base_penalties()[k - 1] as i64 })
        }
    }
}

/// `s` (sorted by ascending penalty) with `x` put after every entry with a
/// penalty no larger.
pub open spec fn insert_asc(s: Seq<PositionPenalty>, x: PositionPenalty) -> Seq<PositionPenalty>
    decreases s.len(),
{
    if s.len() == 0 || s.last().penalty <= x.penalty {
        s.push(x)
    } else {
        insert_asc(s.drop_last(), x).push(s.last())
    }
}

/// `s` sorted by ascending penalty, equal penalties in their order in `s`.
pub open spec fn sort_asc(s: Seq<PositionPenalty>) -> Seq<PositionPenalty>
    decreases s.len(),
{
    if s.len() == 0 {
        seq![]
    } else {
        insert_asc(sort_asc(s.drop_last()), s.last())
    }
}

/// The runs of consecutive entries with equal penalty.
pub open spec fn penalty_runs(s: Seq<PositionPenalty>) -> Seq<Seq<PositionPenalty>>
    decreases s.len(),
{
    if s.len() == 0 {
        seq![]
    } else {
        let g = penalty_runs(s.drop_last());
        let x = s.last();
        if g.len() > 0 && g.last().len() > 0 && g.last().last().penalty == x.penalty {
            g.update(g.len() - 1, g.last().push(x))
        } else {
            g.push(seq![x])
        }
    }
}

/// The runs of the candidate keys sorted by base penalty.
pub open spec fn position_runs() -> Seq<Seq<PositionPenalty>> {
    penalty_runs(sort_asc(candidate_positions(NUM_OF_KEYS as int)))
}

/// A group as plain values: its keys, its size and its number.
pub open spec fn group_view(g: PositionGroup) -> (Seq<u32>, int, int) {
    (g.positions@, g.count as int, g.index as int)
}

proof fn lemma_insert_asc_at(s: Seq<PositionPenalty>, x: PositionPenalty, j: int)
    requires
        0 <= j <= s.len(),
        forall|k: int| j <= k < s.len() ==> (#[trigger] s[k]).penalty > x.penalty,
        j == 0 || s[j - 1].penalty <= x.penalty,
    ensures
        insert_asc(s, x) == s.insert(j, x),
    decreases s.len() - j,
{
    if j == s.len() {
        assert(s.push(x) =~= s.insert(j, x));
    } else {
        let t = s.drop_last();
        assert forall|k: int| j <= k < t.len() implies (#[trigger] t[k]).penalty > x.penalty by {
            assert(t[k] == s[k]);
        }
        if j > 0 {
            assert(t[j - 1] == s[j - 1]);
        }
        lemma_insert_asc_at(t, x, j);
        assert(t.insert(j, x).push(s.last()) =~= s.insert(j, x));
    }
}

/// The candidate keys sorted by base penalty (see `sort_asc`).
fn sorted_candidates() -> (r: Vec<PositionPenalty>)
    ensures
        r@ == sort_asc(candidate_positions(NUM_OF_KEYS as int)),
        r@.len() <= NUM_OF_KEYS,
{
    let fingers = key_finger_map();
    let rows = key_row_map();
    let base = base_penalty_map();
    let mut cands: Vec<PositionPenalty> = Vec::new();
    let mut i: usize = 0;
    while i < NUM_OF_KEYS
        invariant
            i <= NUM_OF_KEYS,
            fingers@ == key_fingers(),
            rows@ == key_rows(),
            forall|k: int| 0 <= k < NUM_OF_KEYS ==> #[trigger] base@[k] == base_penalties()[k],
            cands@ == candidate_positions(i as int),
            cands@.len() <= i,
        decreases NUM_OF_KEYS - i,
    {
        let f = fingers[i];
        let w = rows[i];
        let excluded = f == Finger::Thumb || f == Finger::ThumbBottom || (f == Finger::Index && w == Row::Top) || (f
            == Finger::Middle && w == Row::Bottom);
        if !excluded {
            cands.push(PositionPenalty { position: i as u32, penalty: base[i] });
        }
        i += 1;
    }
    let mut r: Vec<PositionPenalty> = Vec::new();
    let mut k: usize = 0;
    assert(cands@.take(0) =~= Seq::<PositionPenalty>::empty());
    while k < cands.len()
        invariant
            k <= cands@.len(),
            r@ == sort_asc(cands@.take(k as int)),
            r@.len() == k,
            cands@.len() <= NUM_OF_KEYS,
        decreases cands@.len() - k,
    {
        let x = cands[k];
        let mut j: usize = r.len();
        while j > 0 && r[j - 1].penalty > x.penalty
            invariant
                j <= r@.len(),
                forall|m: int| j <= m < r@.len() ==> (#[trigger] r@[m]).penalty > x.penalty,
            decreases j,
        {
            j -= 1;
        }
        proof {
            lemma_insert_asc_at(r@, x, j as int);
            assert(cands@.take(k + 1).drop_last() =~= cands@.take(k as int));
            assert(cands@.take(k + 1).last() == x);
        }
        r.insert(j, x);
        k += 1;
    }
    assert(cands@.take(k as int) =~= cands@);
    r
}

/// The keys that take letters, in groups of equal base penalty, from the
/// lowest penalty to the highest; within a group, in key order. Group `k`
/// holds the keys of run `k` of `position_runs`, their number, and `k`.
pub fn position_groups() -> (r: Vec<PositionGroup>)
    ensures
        r@.len() == position_runs().len(),
        forall|k: int| 0 <= k < r@.len() ==> group_view(#[trigger] r@[k]) == (
            position_runs()[k].map_values(|p: PositionPenalty| p.position),
            position_runs()[k].len() as int,
            k,
        ),
{
    let sorted = sorted_candidates();
    let ghost s = sorted@;
    let mut runs: Vec<Vec<PositionPenalty>> = Vec::new();
    let mut i: usize = 0;
    assert(s.take(0) =~= Seq::<PositionPenalty>::empty());
    while i < sorted.len()
        invariant
            s == sorted@,
            i <= s.len(),
            runs@.map_values(|v: Vec<PositionPenalty>| v@) == penalty_runs(s.take(i as int)),
            forall|k: int| 0 <= k < runs@.len() ==> (#[trigger] runs@[k])@.len() > 0,
            runs@.len() <= i,
            s.len() <= NUM_OF_KEYS,
        decreases s.len() - i,
    {
        let x = sorted[i];
        let ghost g = penalty_runs(s.take(i as int));
        proof {
            assert(s.take(i + 1).drop_last() =~= s.take(i as int));
            assert(s.take(i + 1).last() == x);
        }
        let n = runs.len();
        let extend = n > 0 && {
            let last = &runs[n - 1];
            last[last.len() - 1].penalty == x.penalty
        };
        if extend {
            proof {
                assert(g.last() == runs@[n - 1]@);
            }
            let mut last = runs.pop().unwrap();
            last.push(x);
            runs.push(last);
            proof {
                assert(runs@.map_values(|v: Vec<PositionPenalty>| v@) =~= g.update(g.len() - 1, g.last().push(x)));
            }
        } else {
            proof {
                if n > 0 {
                    assert(g.last() == runs@[n - 1]@);
                }
            }
            let mut fresh: Vec<PositionPenalty> = Vec::new();
            fresh.push(x);
            runs.push(fresh);
            proof {
                assert(runs@.map_values(|v: Vec<PositionPenalty>| v@) =~= g.push(seq![x]));
            }
        }
        i += 1;
    }
    assert(s.take(i as int) =~= s);
    let ghost pr = runs@.map_values(|v: Vec<PositionPenalty>| v@);
    assert(pr == position_runs());
    let mut groups: Vec<PositionGroup> = Vec::new();
    let mut k: usize = 0;
    while k < runs.len()
        invariant
            k <= runs@.len(),
            runs@.len() <= NUM_OF_KEYS,
            pr == runs@.map_values(|v: Vec<PositionPenalty>| v@),
            pr == position_runs(),
            groups@.len() == k,
            forall|m: int| 0 <= m < k ==> group_view(#[trigger] groups@[m]) == (
                position_runs()[m].map_values(|p: PositionPenalty| p.position),
                position_runs()[m].len() as int,
                m,
            ),
        decreases runs@.len() - k,
    {
        let run = &runs[k];
        let mut positions: Vec<u32> = Vec::new();
        let mut j: usize = 0;
        while j < run.len()
            invariant
                j <= run@.len(),
                positions@ == run@.take(j as int).map_values(|p: PositionPenalty| p.position),
            decreases run@.len() - j,
        {
            positions.push(run[j].position);
            j += 1;
            assert(positions@ =~= run@.take(j as int).map_values(|p: PositionPenalty| p.position));
        }
        assert(run@.take(j as int) =~= run@);
        assert(pr[k as int] == run@);
        groups.push(PositionGroup { positions, count: run.len(), index: k as u32 });
        k += 1;
    }
    groups
}


/* ------------------------------------------------------------------ *
 * Letters for each group                                             *
 * ------------------------------------------------------------------ */

/// Where the letters of group `k` start: the sizes of the groups before it, added up.
pub open spec fn group_offset(groups: Seq<PositionGroup>, k: int) -> int
    decreases k,
{
    if k <= 0 {
        0
    } else {
        group_offset(groups, k - 1) + groups[k - 1].count
    }
}

proof fn lemma_group_offset_mono(groups: Seq<PositionGroup>, k: int, j: int)
    requires
        0 <= k <= j,
    ensures
        group_offset(groups, k) <= group_offset(groups, j),
    decreases j - k,
{
    if k < j {
        lemma_group_offset_mono(groups, k, j - 1);
    }
}

/// Hands each group, in turn, the next letters of the sorted list: as many
/// as it has keys.
pub fn assign_frequencies(groups: &Vec<PositionGroup>, sorted: &Vec<KeyFrequency>) -> (r: Vec<Vec<KeyFrequency>>)
    requires
        group_offset(groups@, groups@.len() as int) <= sorted@.len(),
    ensures
        r@.len() == groups@.len(),
        forall|k: int| 0 <= k < r@.len() ==> (#[trigger] r@[k])@ == sorted@.subrange(
            group_offset(groups@, k),
            group_offset(groups@, k + 1),
        ),
{
    let mut r: Vec<Vec<KeyFrequency>> = Vec::new();
    let mut start: usize = 0;
    let mut k: usize = 0;
    let available = sorted.len();
    while k < groups.len()
        invariant
            available == sorted@.len(),
            k <= groups@.len(),
            start == group_offset(groups@, k as int),
            group_offset(groups@, groups@.len() as int) <= sorted@.len(),
            r@.len() == k,
            forall|m: int| 0 <= m < k ==> (#[trigger] r@[m])@ == sorted@.subrange(
                group_offset(groups@, m),
                group_offset(groups@, m + 1),
            ),
        decreases groups@.len() - k,
    {
        proof {
            lemma_group_offset_mono(groups@, k + 1, groups@.len() as int);
            assert(group_offset(groups@, k + 1) == start + groups@[k as int].count);
        }
        let end = start + groups[k].count;
        let mut slice: Vec<KeyFrequency> = Vec::new();
        let mut i: usize = start;
        while i < end
            invariant
                start <= i <= end,
                end <= sorted@.len(),
                slice@ == sorted@.subrange(start as int, i as int),
            decreases end - i,
        {
            slice.push(sorted[i]);
            i += 1;
            assert(slice@ =~= sorted@.subrange(start as int, i as int));
        }
        r.push(slice);
        start = end;
        k += 1;
    }
    r
}

/* ------------------------------------------------------------------ *
 * Arrangements of a group's letters                                  *
 * ------------------------------------------------------------------ */

/// All orderings of a list, as `Itertools::permutations` with the list's
/// length gives them.
pub uninterp spec fn permutations_of(items: Seq<(u8, usize)>) -> Seq<Seq<(u8, usize)>>;

/// The views of a list of lists.
pub open spec fn pair_views(v: Seq<Vec<(u8, usize)>>) -> Seq<Seq<(u8, usize)>> {
    v.map_values(|p: Vec<(u8, usize)>| p@)
}

/// Every ordering of `items`, from `Itertools::permutations(items.len())`.
///
/// Trusted: the result is named by `permutations_of`; the crate's
/// documentation also promises that each ordering has the length asked for
/// and is a rearrangement of the items (each item taken once, by position).
#[verifier::external_body]
fn permutations(items: &Vec<(u8, usize)>) -> (r: Vec<Vec<(u8, usize)>>)
    ensures
        pair_views(r@) == permutations_of(items@),
        forall|i: int| 0 <= i < r@.len() ==> (#[trigger] r@[i])@.len() == items@.len(),
        forall|i: int| 0 <= i < r@.len() ==> (#[trigger] r@[i])@.to_multiset() == items@.to_multiset(),
{
    items.iter().copied().permutations(items.len()).collect()
}

/// The lists of `s` without repeats, each kept where it first occurs.
pub open spec fn unique_lists(s: Seq<Seq<(u8, usize)>>) -> Seq<Seq<(u8, usize)>>
    decreases s.len(),
{
    if s.len() == 0 {
        seq![]
    } else {
        let u = unique_lists(s.drop_last());
        if u.contains(s.last()) {
            u
        } else {
            u.push(s.last())
        }
    }
}

fn same_list(a: &Vec<(u8, usize)>, b: &Vec<(u8, usize)>) -> (r: bool)
    ensures
        r == (a@ == b@),
{
    if a.len() != b.len() {
        return false;
    }
    let mut i: usize = 0;
    while i < a.len()
        invariant
            i <= a@.len(),
            a@.len() == b@.len(),
            forall|j: int| 0 <= j < i ==> a@[j] == b@[j],
        decreases a@.len() - i,
    {
        if a[i].0 != b[i].0 || a[i].1 != b[i].1 {
            assert(a@[i as int] != b@[i as int]);
            return false;
        }
        i += 1;
    }
    assert(a@ =~= b@);
    true
}

/// Drops repeated lists, keeping the first of each (see `unique_lists`).
fn unique(lists: Vec<Vec<(u8, usize)>>) -> (r: Vec<Vec<(u8, usize)>>)
    ensures
        pair_views(r@) == unique_lists(pair_views(lists@)),
        forall|i: int| 0 <= i < r@.len() ==> exists|j: int| 0 <= j < lists@.len() && (#[trigger] r@[i])@ == lists@[j]@,
{
    let ghost s = pair_views(lists@);
    let mut r: Vec<Vec<(u8, usize)>> = Vec::new();
    let mut i: usize = 0;
    assert(s.take(0) =~= Seq::<Seq<(u8, usize)>>::empty());
    while i < lists.len()
        invariant
            i <= lists@.len(),
            s == pair_views(lists@),
            pair_views(r@) == unique_lists(s.take(i as int)),
            forall|m: int| 0 <= m < r@.len() ==> exists|j: int| 0 <= j < lists@.len() && (#[trigger] r@[m])@ == lists@[j]@,
        decreases lists@.len() - i,
    {
        let ghost u = pair_views(r@);
        let mut found = false;
        let mut j: usize = 0;
        while j < r.len()
            invariant
                j <= r@.len(),
                u == pair_views(r@),
                i < lists@.len(),
                !found ==> forall|m: int| 0 <= m < j ==> u[m] != lists@[i as int]@,
                found ==> u.contains(lists@[i as int]@),
            decreases r@.len() - j,
        {
            if !found && same_list(&r[j], &lists[i]) {
                found = true;
                assert(u[j as int] == lists@[i as int]@);
            }
            j += 1;
        }
        proof {
            assert(s.take(i + 1).drop_last() =~= s.take(i as int));
            assert(s.take(i + 1).last() == lists@[i as int]@);
            if !found {
                assert(!u.contains(lists@[i as int]@));
            }
        }
        if !found {
            let copy = copy_pairs(&lists[i]);
            r.push(copy);
            proof {
                assert(pair_views(r@) =~= u.push(lists@[i as int]@));
            }
        }
        i += 1;
    }
    assert(s.take(i as int) =~= s);
    r
}

fn copy_pairs(v: &Vec<(u8, usize)>) -> (r: Vec<(u8, usize)>)
    ensures
        r@ == v@,
{
    let mut r: Vec<(u8, usize)> = Vec::new();
    let mut i: usize = 0;
    while i < v.len()
        invariant
            i <= v@.len(),
            r@ == v@.take(i as int),
        decreases v@.len() - i,
    {
        r.push(v[i]);
        i += 1;
        assert(r@ =~= v@.take(i as int));
    }
    assert(v@.take(i as int) =~= v@);
    r
}

/// An ordering of letters placed on the keys of a group, in order.
pub open spec fn placed(p: Seq<(u8, usize)>, positions: Seq<u32>) -> Seq<KeyPosition> {
    Seq::new(p.len(), |i: int| KeyPosition { key: p[i].0, position: positions[i] })
}

/// The letters of a group as (letter, frequency) pairs.
pub open spec fn frequency_pairs(s: Seq<KeyFrequency>) -> Seq<(u8, usize)> {
    s.map_values(|f: KeyFrequency| (f.key, f.frequency))
}

/// The views of lists of placed letters.
pub open spec fn kp_views(v: Seq<Vec<KeyPosition>>) -> Seq<Seq<KeyPosition>> {
    v.map_values(|p: Vec<KeyPosition>| p@)
}

/// `a` places a rearrangement of `letters` (each taken once) on `positions`,
/// in order.
pub open spec fn arranges(a: Seq<KeyPosition>, letters: Seq<KeyFrequency>, positions: Seq<u32>) -> bool {
    exists|p: Seq<(u8, usize)>|
        p.to_multiset() == frequency_pairs(letters).to_multiset() && a == #[trigger] placed(p, positions)
}

/// Every distinct arrangement of a group's letters on its keys: each distinct
/// ordering of the letters (see `unique_lists`), its `i`-th letter on the
/// group's `i`-th key.
pub fn group_key_positions(group: &PositionGroup, letters: &Vec<KeyFrequency>) -> (r: Vec<Vec<KeyPosition>>)
    requires
        letters@.len() <= group.positions@.len(),
    ensures
        kp_views(r@) == unique_lists(permutations_of(frequency_pairs(letters@))).map_values(
            |p: Seq<(u8, usize)>| placed(p, group.positions@),
        ),
        forall|i: int, j: int|
            0 <= i < r@.len() && 0 <= j < r@[i]@.len() ==> group.positions@.contains(#[trigger] r@[i]@[j].position),
        forall|i: int| 0 <= i < r@.len() ==> arranges(#[trigger] r@[i]@, letters@, group.positions@),
{
    let mut pairs: Vec<(u8, usize)> = Vec::new();
    let mut i: usize = 0;
    while i < letters.len()
        invariant
            i <= letters@.len(),
            pairs@ == frequency_pairs(letters@.take(i as int)),
        decreases letters@.len() - i,
    {
        pairs.push((letters[i].key, letters[i].frequency));
        i += 1;
        assert(pairs@ =~= frequency_pairs(letters@.take(i as int)));
    }
    assert(letters@.take(i as int) =~= letters@);
    let all = permutations(&pairs);
    let ghost all_v = all@;
    let distinct = unique(all);
    proof {
        assert forall|m: int| 0 <= m < distinct@.len() implies (#[trigger] distinct@[m])@.to_multiset()
            == frequency_pairs(letters@).to_multiset() by {
            let j = choose|j: int| 0 <= j < all_v.len() && distinct@[m]@ == all_v[j]@;
            assert(all_v[j]@.to_multiset() == pairs@.to_multiset());
        }
    }
    let ghost target = unique_lists(permutations_of(frequency_pairs(letters@))).map_values(
        |p: Seq<(u8, usize)>| placed(p, group.positions@),
    );
    let mut r: Vec<Vec<KeyPosition>> = Vec::new();
    let mut k: usize = 0;
    while k < distinct.len()
        invariant
            k <= distinct@.len(),
            pair_views(distinct@) == unique_lists(permutations_of(frequency_pairs(letters@))),
            forall|m: int| 0 <= m < distinct@.len() ==> (#[trigger] distinct@[m])@.len() == letters@.len(),
            letters@.len() <= group.positions@.len(),
            target == unique_lists(permutations_of(frequency_pairs(letters@))).map_values(
                |p: Seq<(u8, usize)>| placed(p, group.positions@),
            ),
            kp_views(r@) == target.take(k as int),
            forall|a: int, b: int|
                0 <= a < r@.len() && 0 <= b < r@[a]@.len() ==> group.positions@.contains(#[trigger] r@[a]@[b].position),
            forall|m: int| 0 <= m < distinct@.len() ==> (#[trigger] distinct@[m])@.to_multiset()
                == frequency_pairs(letters@).to_multiset(),
            forall|a: int| 0 <= a < r@.len() ==> arranges(#[trigger] r@[a]@, letters@, group.positions@),
        decreases distinct@.len() - k,
    {
        let p = &distinct[k];
        let mut row: Vec<KeyPosition> = Vec::new();
        let mut j: usize = 0;
        while j < p.len()
            invariant
                j <= p@.len(),
                p@.len() <= group.positions@.len(),
                row@ == placed(p@, group.positions@).take(j as int),
            decreases p@.len() - j,
        {
            row.push(KeyPosition { key: p[j].0, position: group.positions[j] });
            j += 1;
            assert(row@ =~= placed(p@, group.positions@).take(j as int));
        }
        proof {
            assert(row@ =~= placed(p@, group.positions@));
            assert(pair_views(distinct@)[k as int] == p@);
            assert(target[k as int] == placed(p@, group.positions@));
            assert(kp_views(r@.push(row)) =~= kp_views(r@).push(row@));
            assert(target.take(k + 1) =~= target.take(k as int).push(target[k as int]));
            assert(kp_views(r@.push(row)) =~= target.take(k + 1));
            assert forall|b: int| 0 <= b < row@.len() implies group.positions@.contains(#[trigger] row@[b].position) by {
                assert(group.positions@[b] == row@[b].position);
            }
            assert(distinct@[k as int]@.to_multiset() == frequency_pairs(letters@).to_multiset());
            assert(arranges(row@, letters@, group.positions@));
            assert forall|a: int| 0 <= a < r@.push(row).len() implies arranges(#[trigger] r@.push(row)[a]@, letters@, group.positions@) by {
                if a < r@.len() {
                    assert(r@.push(row)[a] == r@[a]);
                }
            }
        }
        r.push(row);
        k += 1;
    }
    assert(target.take(k as int) =~= target);
    r
}

/* ------------------------------------------------------------------ *
 * Combining the groups into layouts                                  *
 * ------------------------------------------------------------------ */

/// The arrangements of each group, as plain values.
pub open spec fn group_lists_view(v: Seq<Vec<Vec<KeyPosition>>>) -> Seq<Seq<Seq<KeyPosition>>> {
    v.map_values(|g: Vec<Vec<KeyPosition>>| kp_views(g@))
}

/// Every group's arrangements (see `group_key_positions`), group by group.
pub fn arrange_groups(groups: &Vec<PositionGroup>, letters: &Vec<Vec<KeyFrequency>>) -> (r: Vec<Vec<Vec<KeyPosition>>>)
    requires
        letters@.len() == groups@.len(),
        forall|k: int| 0 <= k < groups@.len() ==> (#[trigger] letters@[k])@.len() <= groups@[k].positions@.len(),
    ensures
        r@.len() == groups@.len(),
        forall|k: int| 0 <= k < r@.len() ==> #[trigger] kp_views(r@[k]@) == unique_lists(
            permutations_of(frequency_pairs(letters@[k]@)),
        ).map_values(|p: Seq<(u8, usize)>| placed(p, groups@[k].positions@)),
        forall|k: int, i: int, j: int|
            0 <= k < r@.len() && 0 <= i < r@[k]@.len() && 0 <= j < r@[k]@[i]@.len() ==> groups@[k].positions@.contains(
                #[trigger] r@[k]@[i]@[j].position,
            ),
        forall|k: int, i: int|
            0 <= k < r@.len() && 0 <= i < r@[k]@.len() ==> arranges(
                #[trigger] r@[k]@[i]@,
                letters@[k]@,
                groups@[k].positions@,
            ),
{
    let mut r: Vec<Vec<Vec<KeyPosition>>> = Vec::new();
    let mut k: usize = 0;
    while k < groups.len()
        invariant
            k <= groups@.len(),
            letters@.len() == groups@.len(),
            forall|m: int| 0 <= m < groups@.len() ==> (#[trigger] letters@[m])@.len() <= groups@[m].positions@.len(),
            r@.len() == k,
            forall|m: int| 0 <= m < k ==> #[trigger] kp_views(r@[m]@) == unique_lists(
                permutations_of(frequency_pairs(letters@[m]@)),
            ).map_values(|p: Seq<(u8, usize)>| placed(p, groups@[m].positions@)),
            forall|m: int, i: int, j: int|
                0 <= m < k && 0 <= i < r@[m]@.len() && 0 <= j < r@[m]@[i]@.len() ==> groups@[m].positions@.contains(
                    #[trigger] r@[m]@[i]@[j].position,
                ),
            forall|m: int, i: int|
                0 <= m < k && 0 <= i < r@[m]@.len() ==> arranges(
                    #[trigger] r@[m]@[i]@,
                    letters@[m]@,
                    groups@[m].positions@,
                ),
        decreases groups@.len() - k,
    {
        let arranged = group_key_positions(&groups[k], &letters[k]);
        r.push(arranged);
        k += 1;
    }
    r
}

/// `s` (sorted by ascending number of arrangements) with `x` put after every
/// entry with no more arrangements.
pub open spec fn insert_by_len(s: Seq<Seq<Seq<KeyPosition>>>, x: Seq<Seq<KeyPosition>>) -> Seq<Seq<Seq<KeyPosition>>>
    decreases s.len(),
{
    if s.len() == 0 || s.last().len() <= x.len() {
        s.push(x)
    } else {
        insert_by_len(s.drop_last(), x).push(s.last())
    }
}

/// The groups' arrangements sorted by their number, ascending, equal numbers
/// in the order they had.
pub open spec fn sort_by_len(s: Seq<Seq<Seq<KeyPosition>>>) -> Seq<Seq<Seq<KeyPosition>>>
    decreases s.len(),
{
    if s.len() == 0 {
        seq![]
    } else {
        insert_by_len(sort_by_len(s.drop_last()), s.last())
    }
}

proof fn lemma_insert_by_len_at(s: Seq<Seq<Seq<KeyPosition>>>, x: Seq<Seq<KeyPosition>>, j: int)
    requires
        0 <= j <= s.len(),
        forall|k: int| j <= k < s.len() ==> (#[trigger] s[k]).len() > x.len(),
        j == 0 || s[j - 1].len() <= x.len(),
    ensures
        insert_by_len(s, x) == s.insert(j, x),
    decreases s.len() - j,
{
    if j == s.len() {
        assert(s.push(x) =~= s.insert(j, x));
    } else {
        let t = s.drop_last();
        assert forall|k: int| j <= k < t.len() implies (#[trigger] t[k]).len() > x.len() by {
            assert(t[k] == s[k]);
        }
        if j > 0 {
            assert(t[j - 1] == s[j - 1]);
        }
        lemma_insert_by_len_at(t, x, j);
        assert(t.insert(j, x).push(s.last()) =~= s.insert(j, x));
    }
}

proof fn lemma_sort_by_len_len(s: Seq<Seq<Seq<KeyPosition>>>)
    ensures
        sort_by_len(s).len() == s.len(),
    decreases s.len(),
{
    if s.len() > 0 {
        lemma_sort_by_len_len(s.drop_last());
        lemma_insert_by_len_len(sort_by_len(s.drop_last()), s.last());
    }
}

proof fn lemma_insert_by_len_len(s: Seq<Seq<Seq<KeyPosition>>>, x: Seq<Seq<KeyPosition>>)
    ensures
        insert_by_len(s, x).len() == s.len() + 1,
    decreases s.len(),
{
    if s.len() > 0 && s.last().len() > x.len() {
        lemma_insert_by_len_len(s.drop_last(), x);
    }
}

/// A key that takes letters from the frequency list: on the board and not
/// excluded (see `excluded_position`).
pub open spec fn letter_key(p: int) -> bool {
    0 <= p < NUM_OF_KEYS && !excluded_position(p)
}

/// Every arrangement places its letters on letter keys.
pub open spec fn arrangements_on_letter_keys(g: Seq<Seq<KeyPosition>>) -> bool {
    forall|i: int, j: int| 0 <= i < g.len() && 0 <= j < g[i].len() ==> letter_key((#[trigger] g[i][j]).position as int)
}

/// Every group's arrangements place their letters on letter keys.
pub open spec fn groups_on_letter_keys(gs: Seq<Seq<Seq<KeyPosition>>>) -> bool {
    forall|k: int| 0 <= k < gs.len() ==> arrangements_on_letter_keys(#[trigger] gs[k])
}

proof fn lemma_insert_by_len_keeps(s: Seq<Seq<Seq<KeyPosition>>>, x: Seq<Seq<KeyPosition>>)
    requires
        groups_on_letter_keys(s),
        arrangements_on_letter_keys(x),
    ensures
        groups_on_letter_keys(insert_by_len(s, x)),
    decreases s.len(),
{
    if s.len() == 0 || s.last().len() <= x.len() {
        assert forall|k: int| 0 <= k < s.push(x).len() implies arrangements_on_letter_keys(#[trigger] s.push(x)[k]) by {
            if k < s.len() {
                assert(s.push(x)[k] == s[k]);
            }
        }
    } else {
        let t = s.drop_last();
        assert forall|k: int| 0 <= k < t.len() implies arrangements_on_letter_keys(#[trigger] t[k]) by {
            assert(t[k] == s[k]);
        }
        lemma_insert_by_len_keeps(t, x);
        let u = insert_by_len(t, x);
        assert(arrangements_on_letter_keys(s[s.len() - 1]));
        assert forall|k: int| 0 <= k < u.push(s.last()).len() implies arrangements_on_letter_keys(
            #[trigger] u.push(s.last())[k],
        ) by {
            if k < u.len() {
                assert(u.push(s.last())[k] == u[k]);
            }
        }
    }
}

proof fn lemma_sort_by_len_keeps(s: Seq<Seq<Seq<KeyPosition>>>)
    requires
        groups_on_letter_keys(s),
    ensures
        groups_on_letter_keys(sort_by_len(s)),
    decreases s.len(),
{
    if s.len() > 0 {
        let t = s.drop_last();
        assert forall|k: int| 0 <= k < t.len() implies arrangements_on_letter_keys(#[trigger] t[k]) by {
            assert(t[k] == s[k]);
        }
        lemma_sort_by_len_keeps(t);
        assert(arrangements_on_letter_keys(s[s.len() - 1]));
        lemma_insert_by_len_keeps(sort_by_len(t), s.last());
    }
}

/// A key of a group: a letter key, with its base penalty.
pub open spec fn proper_entry(x: PositionPenalty) -> bool {
    letter_key(x.position as int) && x.penalty == base_penalties()[x.position as int]
}

/// Every candidate key is a letter key, with its base penalty.
proof fn lemma_candidates_on_letter_keys(k: int)
    requires
        0 <= k <= NUM_OF_KEYS,
    ensures
        forall|i: int|
            0 <= i < candidate_positions(k).len() ==> proper_entry(#[trigger] candidate_positions(k)[i]),
    decreases k,
{
    if k > 0 {
        lemma_candidates_on_letter_keys(k - 1);
        let prev = candidate_positions(k - 1);
        let c = candidate_positions(k);
        assert forall|i: int| 0 <= i < c.len() implies proper_entry(#[trigger] c[i]) by {
            if i < prev.len() {
                assert(c[i] == prev[i]);
            } else {
                assert(!excluded_position(k - 1));
                assert(c[i].position == (k - 1) as u32);
            }
        }
    }
}

/// All entries of `s` are keys of groups (see `proper_entry`).
pub open spec fn proper_entries(s: Seq<PositionPenalty>) -> bool {
    forall|i: int| 0 <= i < s.len() ==> proper_entry(#[trigger] s[i])
}

proof fn lemma_insert_asc_keeps(s: Seq<PositionPenalty>, x: PositionPenalty)
    requires
        proper_entries(s),
        proper_entry(x),
    ensures
        proper_entries(insert_asc(s, x)),
    decreases s.len(),
{
    if s.len() == 0 || s.last().penalty <= x.penalty {
        assert forall|i: int| 0 <= i < s.push(x).len() implies proper_entry(#[trigger] s.push(x)[i]) by {
            if i < s.len() {
                assert(s.push(x)[i] == s[i]);
            }
        }
    } else {
        let t = s.drop_last();
        assert forall|i: int| 0 <= i < t.len() implies proper_entry(#[trigger] t[i]) by {
            assert(t[i] == s[i]);
        }
        lemma_insert_asc_keeps(t, x);
        let u = insert_asc(t, x);
        assert(proper_entry(s[s.len() - 1]));
        assert forall|i: int| 0 <= i < u.push(s.last()).len() implies proper_entry(#[trigger] u.push(s.last())[i]) by {
            if i < u.len() {
                assert(u.push(s.last())[i] == u[i]);
            }
        }
    }
}

proof fn lemma_sort_asc_keeps(s: Seq<PositionPenalty>)
    requires
        proper_entries(s),
    ensures
        proper_entries(sort_asc(s)),
    decreases s.len(),
{
    if s.len() > 0 {
        let t = s.drop_last();
        assert forall|i: int| 0 <= i < t.len() implies proper_entry(#[trigger] t[i]) by {
            assert(t[i] == s[i]);
        }
        lemma_sort_asc_keeps(t);
        assert(proper_entry(s[s.len() - 1]));
        lemma_insert_asc_keeps(sort_asc(t), s.last());
    }
}

proof fn lemma_runs_keep(s: Seq<PositionPenalty>)
    requires
        proper_entries(s),
    ensures
        forall|k: int| 0 <= k < penalty_runs(s).len() ==> proper_entries(#[trigger] penalty_runs(s)[k]),
    decreases s.len(),
{
    if s.len() > 0 {
        let t = s.drop_last();
        assert forall|i: int| 0 <= i < t.len() implies proper_entry(#[trigger] t[i]) by {
            assert(t[i] == s[i]);
        }
        lemma_runs_keep(t);
        let g = penalty_runs(t);
        let x = s.last();
        assert(proper_entry(s[s.len() - 1]));
        if g.len() > 0 && g.last().len() > 0 && g.last().last().penalty == x.penalty {
            let last = g.last().push(x);
            assert(proper_entries(g[g.len() - 1]));
            assert forall|i: int| 0 <= i < last.len() implies proper_entry(#[trigger] last[i]) by {
                if i < g.last().len() {
                    assert(last[i] == g[g.len() - 1][i]);
                }
            }
            assert forall|k: int| 0 <= k < g.update(g.len() - 1, last).len() implies proper_entries(
                #[trigger] g.update(g.len() - 1, last)[k],
            ) by {
                if k < g.len() - 1 {
                    assert(g.update(g.len() - 1, last)[k] == g[k]);
                }
            }
        } else {
            assert(proper_entries(seq![x]));
            assert forall|k: int| 0 <= k < g.push(seq![x]).len() implies proper_entries(
                #[trigger] g.push(seq![x])[k],
            ) by {
                if k < g.len() {
                    assert(g.push(seq![x])[k] == g[k]);
                }
            }
        }
    }
}

/// The entries are in ascending order of penalty.
pub open spec fn sorted_asc(s: Seq<PositionPenalty>) -> bool {
    forall|i: int, j: int| 0 <= i < j < s.len() ==> (#[trigger] s[i]).penalty <= (#[trigger] s[j]).penalty
}

proof fn lemma_insert_asc_sorted(t: Seq<PositionPenalty>, x: PositionPenalty)
    requires
        sorted_asc(t),
    ensures
        sorted_asc(insert_asc(t, x)),
        forall|i: int| 0 <= i < insert_asc(t, x).len() ==> (#[trigger] insert_asc(t, x)[i]) == x || t.contains(insert_asc(t, x)[i]),
    decreases t.len(),
{
    if t.len() == 0 || t.last().penalty <= x.penalty {
        let r = t.push(x);
        assert forall|i: int| 0 <= i < r.len() implies (#[trigger] r[i]) == x || t.contains(r[i]) by {
            if i < t.len() {
                assert(r[i] == t[i]);
            }
        }
    } else {
        let u = t.drop_last();
        assert(sorted_asc(u)) by {
            assert forall|i: int, j: int| 0 <= i < j < u.len() implies (#[trigger] u[i]).penalty <= (#[trigger] u[j]).penalty by {
                assert(u[i] == t[i] && u[j] == t[j]);
            }
        }
        lemma_insert_asc_sorted(u, x);
        let v = insert_asc(u, x);
        let r = v.push(t.last());
        assert forall|i: int| 0 <= i < v.len() implies (#[trigger] v[i]).penalty <= t.last().penalty by {
            if v[i] != x {
                let k = choose|k: int| 0 <= k < u.len() && u[k] == v[i];
                assert(t[k] == u[k]);
            }
        }
        assert forall|i: int, j: int| 0 <= i < j < r.len() implies (#[trigger] r[i]).penalty <= (#[trigger] r[j]).penalty by {
            assert(r[i] == v[i]);
            if j < v.len() {
                assert(r[j] == v[j]);
            }
        }
        assert forall|i: int| 0 <= i < r.len() implies (#[trigger] r[i]) == x || t.contains(r[i]) by {
            if i < v.len() {
                assert(r[i] == v[i]);
                if v[i] != x {
                    let k = choose|k: int| 0 <= k < u.len() && u[k] == v[i];
                    assert(t[k] == u[k]);
                }
            } else {
                assert(r[i] == t[t.len() - 1]);
            }
        }
    }
}

proof fn lemma_sort_asc_sorted(s: Seq<PositionPenalty>)
    ensures
        sorted_asc(sort_asc(s)),
    decreases s.len(),
{
    if s.len() > 0 {
        lemma_sort_asc_sorted(s.drop_last());
        lemma_insert_asc_sorted(sort_asc(s.drop_last()), s.last());
    }
}

/// The runs of a sorted list: none is empty, each holds one penalty, the
/// penalties rise strictly from run to run, and the last run ends with the
/// list's last entry.
pub open spec fn ordered_runs(g: Seq<Seq<PositionPenalty>>) -> bool {
    &&& forall|k: int| 0 <= k < g.len() ==> (#[trigger] g[k]).len() > 0
    &&& forall|k: int, m: int| 0 <= k < g.len() && 0 <= m < g[k].len() ==> (#[trigger] g[k][m]).penalty == g[k][0].penalty
    &&& forall|k1: int, k2: int| 0 <= k1 < k2 < g.len() ==> (#[trigger] g[k1][0]).penalty < (#[trigger] g[k2][0]).penalty
}

proof fn lemma_runs_ordered(s: Seq<PositionPenalty>)
    requires
        sorted_asc(s),
    ensures
        ordered_runs(penalty_runs(s)),
        s.len() > 0 ==> penalty_runs(s).len() > 0 && penalty_runs(s).last().last() == s.last(),
    decreases s.len(),
{
    if s.len() > 0 {
        let t = s.drop_last();
        assert(sorted_asc(t)) by {
            assert forall|i: int, j: int| 0 <= i < j < t.len() implies (#[trigger] t[i]).penalty <= (#[trigger] t[j]).penalty by {
                assert(t[i] == s[i] && t[j] == s[j]);
            }
        }
        lemma_runs_ordered(t);
        let g = penalty_runs(t);
        let x = s.last();
        if t.len() > 0 {
            assert(t.last() == s[s.len() - 2]);
            assert(s[s.len() - 2].penalty <= s[s.len() - 1].penalty);
            let lk = g.len() - 1;
            assert(g[lk][g[lk].len() - 1].penalty == g[lk][0].penalty);
        }
        if g.len() > 0 && g.last().len() > 0 && g.last().last().penalty == x.penalty {
            let lk = g.len() - 1;
            let last = g.last().push(x);
            let h = g.update(lk, last);
            assert(h[lk][0] == g[lk][0]);
            assert forall|k: int, m: int| 0 <= k < h.len() && 0 <= m < h[k].len() implies (#[trigger] h[k][m]).penalty
                == h[k][0].penalty by {
                if k < lk {
                    assert(h[k] == g[k]);
                } else if m < g[lk].len() {
                    assert(h[k][m] == g[lk][m]);
                }
            }
            assert forall|k1: int, k2: int| 0 <= k1 < k2 < h.len() implies (#[trigger] h[k1][0]).penalty < (
            #[trigger] h[k2][0]).penalty by {
                assert(h[k1] == g[k1]);
            }
            assert(h.last().last() == x);
        } else {
            let h = g.push(seq![x]);
            if g.len() > 0 {
                let lk = g.len() - 1;
                assert(g[lk][0].penalty < x.penalty);
            }
            assert forall|k: int, m: int| 0 <= k < h.len() && 0 <= m < h[k].len() implies (#[trigger] h[k][m]).penalty
                == h[k][0].penalty by {
                if k < g.len() {
                    assert(h[k] == g[k]);
                }
            }
            assert forall|k1: int, k2: int| 0 <= k1 < k2 < h.len() implies (#[trigger] h[k1][0]).penalty < (
            #[trigger] h[k2][0]).penalty by {
                assert(h[k1] == g[k1]);
                if k2 < g.len() {
                    assert(h[k2] == g[k2]);
                } else {
                    let lk = g.len() - 1;
                    if k1 < lk {
                        assert(g[k1][0].penalty < g[lk][0].penalty);
                    }
                }
            }
            assert forall|k: int| 0 <= k < h.len() implies (#[trigger] h[k]).len() > 0 by {
                if k < g.len() {
                    assert(h[k] == g[k]);
                }
            }
        }
    }
}

/// No two entries share a key.
pub open spec fn distinct_positions(s: Seq<PositionPenalty>) -> bool {
    forall|i: int, j: int| 0 <= i < s.len() && 0 <= j < s.len() && i != j ==> (#[trigger] s[i]).position != (
    #[trigger] s[j]).position
}

proof fn lemma_candidates_distinct(k: int)
    requires
        0 <= k <= NUM_OF_KEYS,
    ensures
        distinct_positions(candidate_positions(k)),
        forall|i: int| 0 <= i < candidate_positions(k).len() ==> (#[trigger] candidate_positions(k)[i]).position < k,
    decreases k,
{
    if k > 0 {
        lemma_candidates_distinct(k - 1);
        let prev = candidate_positions(k - 1);
        let c = candidate_positions(k);
        assert forall|i: int| 0 <= i < c.len() implies (#[trigger] c[i]).position < k by {
            if i < prev.len() {
                assert(c[i] == prev[i]);
            }
        }
        assert forall|i: int, j: int| 0 <= i < c.len() && 0 <= j < c.len() && i != j implies (#[trigger] c[i]).position
            != (#[trigger] c[j]).position by {
            if i < prev.len() {
                assert(c[i] == prev[i]);
            }
            if j < prev.len() {
                assert(c[j] == prev[j]);
            }
        }
    }
}

proof fn lemma_insert_asc_is_insert(s: Seq<PositionPenalty>, x: PositionPenalty) -> (j: int)
    ensures
        0 <= j <= s.len(),
        insert_asc(s, x) == s.insert(j, x),
    decreases s.len(),
{
    if s.len() == 0 || s.last().penalty <= x.penalty {
        assert(s.push(x) =~= s.insert(s.len() as int, x));
        s.len() as int
    } else {
        let t = s.drop_last();
        let j = lemma_insert_asc_is_insert(t, x);
        assert(t.insert(j, x).push(s.last()) =~= s.insert(j, x));
        j
    }
}

/// Sorting keeps the entries: each sorted entry is an entry of the list, and
/// distinct keys stay distinct.
proof fn lemma_sort_asc_keeps_entries(s: Seq<PositionPenalty>)
    requires
        distinct_positions(s),
    ensures
        distinct_positions(sort_asc(s)),
        forall|i: int| 0 <= i < sort_asc(s).len() ==> s.contains(#[trigger] sort_asc(s)[i]),
    decreases s.len(),
{
    if s.len() > 0 {
        let t = s.drop_last();
        let x = s.last();
        assert(distinct_positions(t)) by {
            assert forall|i: int, j: int| 0 <= i < t.len() && 0 <= j < t.len() && i != j implies (#[trigger] t[i]).position
                != (#[trigger] t[j]).position by {
                assert(t[i] == s[i] && t[j] == s[j]);
            }
        }
        lemma_sort_asc_keeps_entries(t);
        let u = sort_asc(t);
        let j = lemma_insert_asc_is_insert(u, x);
        let v = u.insert(j, x);
        assert(sort_asc(s) == v);
        assert forall|i: int| 0 <= i < u.len() implies (#[trigger] u[i]).position != x.position by {
            let m = choose|m: int| 0 <= m < t.len() && t[m] == u[i];
            assert(s[m] == t[m]);
            assert(s[s.len() - 1] == x);
        }
        assert forall|i: int| 0 <= i < v.len() implies s.contains(#[trigger] v[i]) by {
            if i < j {
                assert(v[i] == u[i]);
                let m = choose|m: int| 0 <= m < t.len() && t[m] == u[i];
                assert(s[m] == t[m]);
            } else if i > j {
                assert(v[i] == u[i - 1]);
                let m = choose|m: int| 0 <= m < t.len() && t[m] == u[i - 1];
                assert(s[m] == t[m]);
            } else {
                assert(s[s.len() - 1] == x);
            }
        }
        assert forall|a: int, b: int| 0 <= a < v.len() && 0 <= b < v.len() && a != b implies (#[trigger] v[a]).position
            != (#[trigger] v[b]).position by {
            let a2 = if a < j { a } else { a - 1 };
            let b2 = if b < j { b } else { b - 1 };
            if a != j {
                assert(v[a] == u[a2]);
            }
            if b != j {
                assert(v[b] == u[b2]);
            }
        }
    }
}

/// No two places of the runs share a key.
pub open spec fn distinct_run_positions(g: Seq<Seq<PositionPenalty>>) -> bool {
    forall|k1: int, m1: int, k2: int, m2: int|
        0 <= k1 < g.len() && 0 <= m1 < g[k1].len() && 0 <= k2 < g.len() && 0 <= m2 < g[k2].len() && (k1 != k2 || m1
            != m2) ==> (#[trigger] g[k1][m1]).position != (#[trigger] g[k2][m2]).position
}

proof fn lemma_runs_keep_entries(s: Seq<PositionPenalty>)
    requires
        distinct_positions(s),
    ensures
        distinct_run_positions(penalty_runs(s)),
        forall|k: int, m: int|
            0 <= k < penalty_runs(s).len() && 0 <= m < penalty_runs(s)[k].len() ==> s.contains(
                #[trigger] penalty_runs(s)[k][m],
            ),
    decreases s.len(),
{
    if s.len() > 0 {
        let t = s.drop_last();
        let x = s.last();
        assert(distinct_positions(t)) by {
            assert forall|i: int, j: int| 0 <= i < t.len() && 0 <= j < t.len() && i != j implies (#[trigger] t[i]).position
                != (#[trigger] t[j]).position by {
                assert(t[i] == s[i] && t[j] == s[j]);
            }
        }
        lemma_runs_keep_entries(t);
        let g = penalty_runs(t);
        assert(s[s.len() - 1] == x);
        assert forall|k: int, m: int| 0 <= k < g.len() && 0 <= m < g[k].len() implies (#[trigger] g[k][m]).position
            != x.position && s.contains(g[k][m]) by {
            let i = choose|i: int| 0 <= i < t.len() && t[i] == g[k][m];
            assert(s[i] == t[i]);
        }
        if g.len() > 0 && g.last().len() > 0 && g.last().last().penalty == x.penalty {
            let lk = g.len() - 1;
            let h = g.update(lk, g.last().push(x));
            assert forall|k: int, m: int| 0 <= k < h.len() && 0 <= m < h[k].len() implies s.contains(#[trigger] h[k][m]) by {
                if k < lk || m < g[lk].len() {
                    assert(h[k][m] == g[k][m]);
                }
            }
            assert forall|k1: int, m1: int, k2: int, m2: int|
                0 <= k1 < h.len() && 0 <= m1 < h[k1].len() && 0 <= k2 < h.len() && 0 <= m2 < h[k2].len() && (k1 != k2
                    || m1 != m2) implies (#[trigger] h[k1][m1]).position != (#[trigger] h[k2][m2]).position by {
                if k1 < lk || m1 < g[lk].len() {
                    assert(h[k1][m1] == g[k1][m1]);
                }
                if k2 < lk || m2 < g[lk].len() {
                    assert(h[k2][m2] == g[k2][m2]);
                }
            }
        } else {
            let h = g.push(seq![x]);
            assert forall|k: int, m: int| 0 <= k < h.len() && 0 <= m < h[k].len() implies s.contains(#[trigger] h[k][m]) by {
                if k < g.len() {
                    assert(h[k][m] == g[k][m]);
                }
            }
            assert forall|k1: int, m1: int, k2: int, m2: int|
                0 <= k1 < h.len() && 0 <= m1 < h[k1].len() && 0 <= k2 < h.len() && 0 <= m2 < h[k2].len() && (k1 != k2
                    || m1 != m2) implies (#[trigger] h[k1][m1]).position != (#[trigger] h[k2][m2]).position by {
                if k1 < g.len() {
                    assert(h[k1][m1] == g[k1][m1]);
                }
                if k2 < g.len() {
                    assert(h[k2][m2] == g[k2][m2]);
                }
            }
        }
    }
}

/// No two keys of the groups of keys are the same key.
pub proof fn lemma_position_runs_distinct()
    ensures
        distinct_run_positions(position_runs()),
{
    lemma_candidates_distinct(NUM_OF_KEYS as int);
    lemma_sort_asc_keeps_entries(candidate_positions(NUM_OF_KEYS as int));
    lemma_runs_keep_entries(sort_asc(candidate_positions(NUM_OF_KEYS as int)));
}

/// The groups of keys hold one base penalty each, rising strictly from group
/// to group.
pub proof fn lemma_position_runs_ordered()
    ensures
        ordered_runs(position_runs()),
{
    lemma_sort_asc_sorted(candidate_positions(NUM_OF_KEYS as int));
    lemma_runs_ordered(sort_asc(candidate_positions(NUM_OF_KEYS as int)));
}

/// Every key of every group of keys is a letter key, with its base penalty.
proof fn lemma_position_runs_on_letter_keys()
    ensures
        forall|k: int| 0 <= k < position_runs().len() ==> proper_entries(#[trigger] position_runs()[k]),
{
    lemma_candidates_on_letter_keys(NUM_OF_KEYS as int);
    lemma_sort_asc_keeps(candidate_positions(NUM_OF_KEYS as int));
    lemma_runs_keep(sort_asc(candidate_positions(NUM_OF_KEYS as int)));
}

/// Inserting by number of arrangements puts the new entry at some place.
proof fn lemma_insert_by_len_is_insert(s: Seq<Seq<Seq<KeyPosition>>>, x: Seq<Seq<KeyPosition>>) -> (j: int)
    ensures
        0 <= j <= s.len(),
        insert_by_len(s, x) == s.insert(j, x),
    decreases s.len(),
{
    if s.len() == 0 || s.last().len() <= x.len() {
        assert(s.push(x) =~= s.insert(s.len() as int, x));
        s.len() as int
    } else {
        let t = s.drop_last();
        let j = lemma_insert_by_len_is_insert(t, x);
        assert(t.insert(j, x).push(s.last()) =~= s.insert(j, x));
        j
    }
}

/// A reordering of `0..n`: `n` distinct indices below `n`.
pub open spec fn reordering(ks: Seq<int>, n: int) -> bool {
    &&& ks.len() == n
    &&& forall|a: int| 0 <= a < ks.len() ==> 0 <= #[trigger] ks[a] < n
    &&& forall|a: int, b: int| 0 <= a < ks.len() && 0 <= b < ks.len() && a != b ==> #[trigger] ks[a] != #[trigger] ks[b]
}

/// Sorting by number of arrangements only reorders the groups.
proof fn lemma_sort_by_len_reorders(s: Seq<Seq<Seq<KeyPosition>>>) -> (perm: Seq<int>)
    ensures
        reordering(perm, s.len() as int),
        sort_by_len(s).len() == s.len(),
        forall|a: int| 0 <= a < s.len() ==> #[trigger] sort_by_len(s)[a] == s[perm[a]],
    decreases s.len(),
{
    if s.len() == 0 {
        Seq::empty()
    } else {
        let t = s.drop_last();
        let p = lemma_sort_by_len_reorders(t);
        let j = lemma_insert_by_len_is_insert(sort_by_len(t), s.last());
        let perm = p.insert(j, t.len() as int);
        let u = sort_by_len(s);
        assert(u == sort_by_len(t).insert(j, s.last()));
        assert forall|a: int| 0 <= a < perm.len() implies 0 <= #[trigger] perm[a] < s.len() by {
            if a < j {
                assert(perm[a] == p[a]);
            } else if a > j {
                assert(perm[a] == p[a - 1]);
            }
        }
        assert forall|a: int, b: int| 0 <= a < perm.len() && 0 <= b < perm.len() && a != b implies #[trigger] perm[a]
            != #[trigger] perm[b] by {
            if a != j && b != j {
                let a2 = if a < j { a } else { a - 1 };
                let b2 = if b < j { b } else { b - 1 };
                assert(perm[a] == p[a2]);
                assert(perm[b] == p[b2]);
            } else if a == j {
                let b2 = if b < j { b } else { b - 1 };
                assert(perm[b] == p[b2]);
            } else {
                let a2 = if a < j { a } else { a - 1 };
                assert(perm[a] == p[a2]);
            }
        }
        assert forall|a: int| 0 <= a < s.len() implies #[trigger] sort_by_len(s)[a] == s[perm[a]] by {
            if a < j {
                assert(perm[a] == p[a]);
                assert(u[a] == sort_by_len(t)[a]);
                assert(s[p[a]] == t[p[a]]);
            } else if a > j {
                assert(perm[a] == p[a - 1]);
                assert(u[a] == sort_by_len(t)[a - 1]);
                assert(s[p[a - 1]] == t[p[a - 1]]);
            }
        }
        perm
    }
}

/// Every arrangement of `g` places the letters of group `k` (see
/// `group_letters`) on the keys of group `k`.
pub open spec fn arrangements_of_run(g: Seq<Seq<KeyPosition>>, sorted: Seq<KeyFrequency>, k: int) -> bool {
    forall|i: int| 0 <= i < g.len() ==> arranges(#[trigger] g[i], group_letters(sorted, k), run_positions(k))
}

/// The letters of an n-gram list, most frequent first (see `sort_desc`).
pub open spec fn sorted_letters(l: NgramList) -> Seq<KeyFrequency> {
    sort_desc(list_frequencies(l.map.keys(), l.map@))
}

/// Sorts the groups' arrangements by their number (see `sort_by_len`) and
/// takes off the group with the most: it is the last.
pub fn split_biggest(lists: Vec<Vec<Vec<KeyPosition>>>) -> (r: (Vec<Vec<Vec<KeyPosition>>>, Vec<Vec<KeyPosition>>))
    requires
        lists@.len() > 0,
    ensures
        group_lists_view(r.0@) == sort_by_len(group_lists_view(lists@)).drop_last(),
        kp_views(r.1@) == sort_by_len(group_lists_view(lists@)).last(),
{
    let ghost s = group_lists_view(lists@);
    let mut input = lists;
    let mut sorted: Vec<Vec<Vec<KeyPosition>>> = Vec::new();
    let ghost n = s.len();
    assert(s.take(0) =~= Seq::<Seq<Seq<KeyPosition>>>::empty());
    assert(group_lists_view(input@) =~= s.skip(0));
    while input.len() > 0
        invariant
            n == s.len(),
            input@.len() <= n,
            group_lists_view(input@) == s.skip(n - input@.len()),
            group_lists_view(sorted@) == sort_by_len(s.take(n - input@.len())),
            sorted@.len() == n - input@.len(),
        decreases input@.len(),
    {
        let ghost i = n - input@.len();
        let ghost old_in = input@;
        let x = input.remove(0);
        let ghost xv = kp_views(x@);
        proof {
            assert(input@ =~= old_in.skip(1));
            assert(group_lists_view(old_in)[0] == xv);
            assert(group_lists_view(input@) =~= group_lists_view(old_in).skip(1));
            assert(group_lists_view(input@) =~= s.skip(i + 1));
            assert(s.skip(i)[0] == xv);
            assert(s[i] == xv);
            assert(s.take(i + 1).drop_last() =~= s.take(i));
            assert(s.take(i + 1).last() == xv);
        }
        let mut j: usize = sorted.len();
        while j > 0 && sorted[j - 1].len() > x.len()
            invariant
                j <= sorted@.len(),
                xv == kp_views(x@),
                forall|k: int| j <= k < sorted@.len() ==> (#[trigger] sorted@[k])@.len() > x@.len(),
            decreases j,
        {
            j -= 1;
        }
        proof {
            let g = group_lists_view(sorted@);
            assert forall|k: int| j <= k < g.len() implies (#[trigger] g[k]).len() > xv.len() by {
                assert(g[k].len() == sorted@[k]@.len());
            }
            if j > 0 {
                assert(g[j - 1].len() == sorted@[j - 1]@.len());
            }
            lemma_insert_by_len_at(g, xv, j as int);
        }
        sorted.insert(j, x);
        proof {
            assert(group_lists_view(sorted@) =~= sort_by_len(s.take(i)).insert(j as int, xv));
        }
    }
    proof {
        assert(s.take(n as int) =~= s);
        lemma_sort_by_len_len(s);
    }
    let biggest = sorted.pop().unwrap();
    proof {
        assert(group_lists_view(sorted@) =~= sort_by_len(s).drop_last());
    }
    (sorted, biggest)
}

/// The combinations that `Itertools::multi_cartesian_product` gives for the lists.
pub uninterp spec fn cartesian_product_of(lists: Seq<Seq<Seq<(u8, u32)>>>) -> Seq<Seq<Seq<(u8, u32)>>>;

/// The views of lists of lists of placed letters (as pairs).
pub open spec fn deep_views(v: Seq<Vec<Vec<(u8, u32)>>>) -> Seq<Seq<Seq<(u8, u32)>>> {
    v.map_values(|g: Vec<Vec<(u8, u32)>>| g@.map_values(|p: Vec<(u8, u32)>| p@))
}

/// Every combination of one entry from each list, from
/// `Itertools::multi_cartesian_product`.
///
/// Trusted: the result is named by `cartesian_product_of`; the crate's
/// documentation also promises that each combination takes, for each list,
/// one of its entries.
#[verifier::external_body]
fn cartesian_product(lists: Vec<Vec<Vec<(u8, u32)>>>) -> (r: Vec<Vec<Vec<(u8, u32)>>>)
    ensures
        deep_views(r@) == cartesian_product_of(deep_views(lists@)),
        forall|c: int| 0 <= c < r@.len() ==> (#[trigger] r@[c])@.len() == lists@.len(),
        forall|c: int, i: int|
            0 <= c < r@.len() && 0 <= i < r@[c]@.len() ==> exists|j: int|
                0 <= j < lists@[i]@.len() && (#[trigger] r@[c]@[i])@ == lists@[i]@[j]@,
{
    lists.into_iter().map(IntoIterator::into_iter).multi_cartesian_product().collect()
}

/// The layout before letters are placed: `e` on key 31, `t` on key 34, a
/// newline on key 35, spaces elsewhere.
pub open spec fn layout_base() -> Seq<char> {
    Seq::new(
        NUM_OF_KEYS as nat,
        |i: int|
            if i == 31 {
                'e'
            } else if i == 34 {
                't'
            } else if i == 35 {
                '\n'
            } else {
                ' '
            },
    )
}

/// `base` with each letter of `items`, in turn, put on its key.
pub open spec fn place_all(base: Seq<char>, items: Seq<(u8, u32)>) -> Seq<char>
    decreases items.len(),
{
    if items.len() == 0 {
        base
    } else {
        place_all(base, items.drop_last()).update(items.last().1 as int, items.last().0 as char)
    }
}

/// The entries of a combination, list after list.
pub open spec fn flatten_pairs(c: Seq<Seq<(u8, u32)>>) -> Seq<(u8, u32)>
    decreases c.len(),
{
    if c.len() == 0 {
        seq![]
    } else {
        flatten_pairs(c.drop_last()) + c.last()
    }
}

/// Every placed key is on the board.
pub open spec fn on_board(c: Seq<Seq<(u8, u32)>>) -> bool {
    forall|i: int, j: int| 0 <= i < c.len() && 0 <= j < c[i].len() ==> (#[trigger] c[i][j]).1 < NUM_OF_KEYS
}

proof fn lemma_flatten_on_board(c: Seq<Seq<(u8, u32)>>)
    requires
        on_board(c),
    ensures
        forall|k: int| 0 <= k < flatten_pairs(c).len() ==> (#[trigger] flatten_pairs(c)[k]).1 < NUM_OF_KEYS,
    decreases c.len(),
{
    if c.len() > 0 {
        let d = c.drop_last();
        assert forall|i: int, j: int| 0 <= i < d.len() && 0 <= j < d[i].len() implies (#[trigger] d[i][j]).1 < NUM_OF_KEYS by {
            assert(d[i] == c[i]);
        }
        lemma_flatten_on_board(d);
        let f = flatten_pairs(c);
        assert forall|k: int| 0 <= k < f.len() implies (#[trigger] f[k]).1 < NUM_OF_KEYS by {
            if k >= flatten_pairs(d).len() {
                assert(f[k] == c.last()[k - flatten_pairs(d).len()]);
                assert(c[c.len() - 1] == c.last());
            }
        }
    }
}

/// Placing letters leaves every key that none of them names as it was.
proof fn lemma_place_all_keeps(base: Seq<char>, items: Seq<(u8, u32)>, p: int)
    requires
        0 <= p < base.len(),
        forall|k: int| 0 <= k < items.len() ==> (#[trigger] items[k]).1 < base.len() && items[k].1 != p,
    ensures
        place_all(base, items).len() == base.len(),
        place_all(base, items)[p] == base[p],
    decreases items.len(),
{
    if items.len() > 0 {
        let t = items.drop_last();
        assert forall|k: int| 0 <= k < t.len() implies (#[trigger] t[k]).1 < base.len() && t[k].1 != p by {
            assert(t[k] == items[k]);
        }
        lemma_place_all_keeps(base, t, p);
        assert(items[items.len() - 1].1 != p);
    }
}

proof fn lemma_flatten_letter_keys(c: Seq<Seq<(u8, u32)>>)
    requires
        forall|i: int, j: int| 0 <= i < c.len() && 0 <= j < c[i].len() ==> letter_key((#[trigger] c[i][j]).1 as int),
    ensures
        forall|k: int| 0 <= k < flatten_pairs(c).len() ==> letter_key((#[trigger] flatten_pairs(c)[k]).1 as int),
    decreases c.len(),
{
    if c.len() > 0 {
        let d = c.drop_last();
        assert forall|i: int, j: int| 0 <= i < d.len() && 0 <= j < d[i].len() implies letter_key(
            (#[trigger] d[i][j]).1 as int,
        ) by {
            assert(d[i] == c[i]);
        }
        lemma_flatten_letter_keys(d);
        let f = flatten_pairs(c);
        assert forall|k: int| 0 <= k < f.len() implies letter_key((#[trigger] f[k]).1 as int) by {
            if k >= flatten_pairs(d).len() {
                assert(f[k] == c.last()[k - flatten_pairs(d).len()]);
                assert(c[c.len() - 1] == c.last());
            }
        }
    }
}

/// A combination whose letters all go on letter keys leaves `e` on key 31,
/// `t` on key 34 and the newline on key 35.
proof fn lemma_combination_keeps_fixed_keys(c: Seq<Seq<(u8, u32)>>)
    requires
        forall|i: int, j: int| 0 <= i < c.len() && 0 <= j < c[i].len() ==> letter_key((#[trigger] c[i][j]).1 as int),
    ensures
        place_all(layout_base(), flatten_pairs(c)).len() == NUM_OF_KEYS,
        place_all(layout_base(), flatten_pairs(c))[31] == 'e',
        place_all(layout_base(), flatten_pairs(c))[34] == 't',
        place_all(layout_base(), flatten_pairs(c))[35] == '\n',
{
    lemma_flatten_letter_keys(c);
    let f = flatten_pairs(c);
    assert(key_fingers()[31] == Finger::ThumbBottom);
    assert(key_fingers()[34] == Finger::ThumbBottom);
    assert(key_fingers()[35] == Finger::ThumbBottom);
    assert(excluded_position(31) && excluded_position(34) && excluded_position(35));
    assert forall|k: int| 0 <= k < f.len() implies (#[trigger] f[k]).1 < layout_base().len() && f[k].1 != 31 && f[k].1
        != 34 && f[k].1 != 35 by {
        assert(letter_key(f[k].1 as int));
    }
    lemma_place_all_keeps(layout_base(), f, 31);
    lemma_place_all_keeps(layout_base(), f, 34);
    lemma_place_all_keeps(layout_base(), f, 35);
}

/// The layout of one combination: the base layout with every placed letter
/// put on its key, list after list (see `place_all`).
pub fn combination_layout(combination: &Vec<Vec<(u8, u32)>>) -> (r: String)
    requires
        on_board(combination@.map_values(|p: Vec<(u8, u32)>| p@)),
    ensures
        r@ == place_all(layout_base(), flatten_pairs(combination@.map_values(|p: Vec<(u8, u32)>| p@))),
{
    let ghost c = combination@.map_values(|p: Vec<(u8, u32)>| p@);
    let mut keys: Vec<char> = Vec::new();
    let mut i: usize = 0;
    while i < NUM_OF_KEYS
        invariant
            i <= NUM_OF_KEYS,
            keys@ == layout_base().take(i as int),
        decreases NUM_OF_KEYS - i,
    {
        let ch = if i == 31 {
            'e'
        } else if i == 34 {
            't'
        } else if i == 35 {
            '\n'
        } else {
            ' '
        };
        keys.push(ch);
        i += 1;
        assert(keys@ =~= layout_base().take(i as int));
    }
    assert(layout_base().take(NUM_OF_KEYS as int) =~= layout_base());
    proof {
        lemma_flatten_on_board(c);
    }
    let mut g: usize = 0;
    assert(c.take(0) =~= Seq::<Seq<(u8, u32)>>::empty());
    while g < combination.len()
        invariant
            g <= combination@.len(),
            c == combination@.map_values(|p: Vec<(u8, u32)>| p@),
            on_board(c),
            keys@.len() == NUM_OF_KEYS,
            keys@ == place_all(layout_base(), flatten_pairs(c.take(g as int))),
        decreases combination@.len() - g,
    {
        let list = &combination[g];
        let ghost before = flatten_pairs(c.take(g as int));
        assert(c[g as int] == list@);
        let mut j: usize = 0;
        assert(before + list@.take(0) =~= before);
        while j < list.len()
            invariant
                j <= list@.len(),
                c[g as int] == list@,
                on_board(c),
                g < c.len(),
                keys@.len() == NUM_OF_KEYS,
                keys@ == place_all(layout_base(), before + list@.take(j as int)),
            decreases list@.len() - j,
        {
            let (key, position) = list[j];
            assert(c[g as int][j as int] == list@[j as int]);
            assert((before + list@.take(j + 1)).drop_last() =~= before + list@.take(j as int));
            assert((before + list@.take(j + 1)).last() == list@[j as int]);
            keys.set(position as usize, key as char);
            j += 1;
        }
        assert(list@.take(j as int) =~= list@);
        assert(c.take(g + 1).drop_last() =~= c.take(g as int));
        assert(c.take(g + 1).last() == list@);
        g += 1;
    }
    assert(c.take(g as int) =~= c);
    string_from_chars(keys.as_slice())
}

/// The letters of an arrangement joined by `_` (as `Itertools::join` writes them).
pub open spec fn joined_keys(choice: Seq<KeyPosition>) -> Seq<char>
    decreases choice.len(),
{
    if choice.len() == 0 {
        seq![]
    } else if choice.len() == 1 {
        seq![choice[0].key as char]
    } else {
        joined_keys(choice.drop_last()).push('_').push(choice.last().key as char)
    }
}

/// The name under which the layouts of an arrangement are saved: its
/// letters joined by `_`.
pub fn choice_filename(choice: &Vec<KeyPosition>) -> (r: String)
    ensures
        r@ == joined_keys(choice@),
{
    let mut out: Vec<char> = Vec::new();
    let mut i: usize = 0;
    assert(choice@.take(0) =~= Seq::<KeyPosition>::empty());
    while i < choice.len()
        invariant
            i <= choice@.len(),
            out@ == joined_keys(choice@.take(i as int)),
        decreases choice@.len() - i,
    {
        assert(choice@.take(i + 1).drop_last() =~= choice@.take(i as int));
        assert(choice@.take(i + 1).last() == choice@[i as int]);
        if i > 0 {
            out.push('_');
        } else {
            assert(choice@.take(1) =~= seq![choice@[0]]);
        }
        out.push(choice[i].key as char);
        i += 1;
    }
    assert(choice@.take(i as int) =~= choice@);
    string_from_chars(out.as_slice())
}

/// An arrangement as (letter, key) pairs.
pub open spec fn as_pairs(v: Seq<KeyPosition>) -> Seq<(u8, u32)> {
    v.map_values(|kp: KeyPosition| (kp.key, kp.position))
}

fn pairs_of(v: &Vec<KeyPosition>) -> (r: Vec<(u8, u32)>)
    ensures
        r@ == as_pairs(v@),
{
    let mut r: Vec<(u8, u32)> = Vec::new();
    let mut i: usize = 0;
    while i < v.len()
        invariant
            i <= v@.len(),
            r@ == as_pairs(v@.take(i as int)),
        decreases v@.len() - i,
    {
        r.push((v[i].key, v[i].position));
        i += 1;
        assert(r@ =~= as_pairs(v@.take(i as int)));
    }
    assert(v@.take(i as int) =~= v@);
    r
}

/// The lists that `layouts_for_choice` combines: the arrangements of every
/// other group, then the one chosen arrangement of the biggest group.
pub open spec fn choice_lists(rest: Seq<Seq<Seq<KeyPosition>>>, choice: Seq<KeyPosition>) -> Seq<Seq<Seq<(u8, u32)>>> {
    rest.map_values(|g: Seq<Seq<KeyPosition>>| g.map_values(|a: Seq<KeyPosition>| as_pairs(a))).push(
        seq![as_pairs(choice)],
    )
}

/// Every arrangement's keys are on the board.
pub open spec fn arrangements_on_board(rest: Seq<Seq<Seq<KeyPosition>>>) -> bool {
    forall|k: int, i: int, j: int|
        0 <= k < rest.len() && 0 <= i < rest[k].len() && 0 <= j < rest[k][i].len() ==> (#[trigger] rest[k][i][j]).position
            < NUM_OF_KEYS
}

/// The layouts made with one arrangement of the biggest group: every
/// combination of one arrangement per other group with it (in the order of
/// `cartesian_product_of`), each turned into a layout (see `combination_layout`).
pub fn layouts_for_choice(rest: &Vec<Vec<Vec<KeyPosition>>>, choice: &Vec<KeyPosition>) -> (r: Vec<String>)
    requires
        arrangements_on_board(group_lists_view(rest@)),
        forall|j: int| 0 <= j < choice@.len() ==> (#[trigger] choice@[j]).position < NUM_OF_KEYS,
    ensures
        r@.len() == cartesian_product_of(choice_lists(group_lists_view(rest@), choice@)).len(),
        forall|c: int| 0 <= c < r@.len() ==> (#[trigger] r@[c])@ == place_all(
            layout_base(),
            flatten_pairs(cartesian_product_of(choice_lists(group_lists_view(rest@), choice@))[c]),
        ),
        forall|c: int|
            0 <= c < r@.len() ==> (#[trigger] cartesian_product_of(choice_lists(group_lists_view(rest@), choice@))[c]).len()
                == choice_lists(group_lists_view(rest@), choice@).len(),
        forall|c: int, i: int|
            0 <= c < r@.len() && 0 <= i < choice_lists(group_lists_view(rest@), choice@).len() ==> choice_lists(
                group_lists_view(rest@),
                choice@,
            )[i].contains(#[trigger] cartesian_product_of(choice_lists(group_lists_view(rest@), choice@))[c][i]),
        groups_on_letter_keys(group_lists_view(rest@)) && (forall|j: int|
            0 <= j < choice@.len() ==> letter_key((#[trigger] choice@[j]).position as int)) ==> forall|c: int|
            0 <= c < r@.len() ==> (#[trigger] r@[c])@[31] == 'e' && r@[c]@[34] == 't' && r@[c]@[35] == '\n',
{
    let ghost target = choice_lists(group_lists_view(rest@), choice@);
    let mut lists: Vec<Vec<Vec<(u8, u32)>>> = Vec::new();
    let mut k: usize = 0;
    while k < rest.len()
        invariant
            k <= rest@.len(),
            deep_views(lists@) == target.take(k as int),
            target == choice_lists(group_lists_view(rest@), choice@),
        decreases rest@.len() - k,
    {
        let group = &rest[k];
        let mut converted: Vec<Vec<(u8, u32)>> = Vec::new();
        let mut i: usize = 0;
        while i < group.len()
            invariant
                i <= group@.len(),
                converted@.map_values(|p: Vec<(u8, u32)>| p@) == group@.take(i as int).map_values(
                    |a: Vec<KeyPosition>| as_pairs(a@),
                ),
            decreases group@.len() - i,
        {
            let p = pairs_of(&group[i]);
            let ghost before = converted@.map_values(|p: Vec<(u8, u32)>| p@);
            converted.push(p);
            proof {
                assert(converted@.map_values(|p: Vec<(u8, u32)>| p@) =~= before.push(p@));
                assert(group@.take(i + 1).map_values(|a: Vec<KeyPosition>| as_pairs(a@)) =~= group@.take(
                    i as int,
                ).map_values(|a: Vec<KeyPosition>| as_pairs(a@)).push(as_pairs(group@[i as int]@)));
            }
            i += 1;
        }
        proof {
            assert(group@.take(i as int) =~= group@);
            assert(target[k as int] == group_lists_view(rest@)[k as int].map_values(|a: Seq<KeyPosition>| as_pairs(a)));
            assert(group_lists_view(rest@)[k as int] == kp_views(group@));
            assert(group@.map_values(|a: Vec<KeyPosition>| as_pairs(a@)) =~= kp_views(group@).map_values(
                |a: Seq<KeyPosition>| as_pairs(a),
            ));
            assert(converted@.map_values(|p: Vec<(u8, u32)>| p@) =~= target[k as int]);
            assert(deep_views(lists@.push(converted)) =~= deep_views(lists@).push(
                converted@.map_values(|p: Vec<(u8, u32)>| p@),
            ));
            assert(target.take(k + 1) =~= target.take(k as int).push(target[k as int]));
            assert(deep_views(lists@.push(converted)) =~= target.take(k + 1));
        }
        lists.push(converted);
        k += 1;
    }
    let chosen = pairs_of(choice);
    let mut single: Vec<Vec<(u8, u32)>> = Vec::new();
    single.push(chosen);
    proof {
        assert(single@.map_values(|p: Vec<(u8, u32)>| p@) =~= seq![as_pairs(choice@)]);
        assert(deep_views(lists@.push(single)) =~= deep_views(lists@).push(
            single@.map_values(|p: Vec<(u8, u32)>| p@),
        ));
        assert(target.take(rest@.len() as int) =~= target.drop_last());
        assert(target =~= target.drop_last().push(seq![as_pairs(choice@)]));
        assert(deep_views(lists@.push(single)) =~= target);
    }
    lists.push(single);
    let ghost lv = deep_views(lists@);
    proof {
        assert forall|i: int, j: int, m: int|
            0 <= i < lv.len() && 0 <= j < lv[i].len() && 0 <= m < lv[i][j].len() implies (#[trigger] lv[i][j][m]).1
            < NUM_OF_KEYS by {
            if i < rest@.len() {
                assert(lv[i] == target[i]);
                assert(lv[i][j][m] == (rest@[i]@[j]@[m].key, rest@[i]@[j]@[m].position));
                assert(group_lists_view(rest@)[i][j][m] == rest@[i]@[j]@[m]);
            } else {
                assert(lv[i][j][m] == (choice@[m].key, choice@[m].position));
            }
        }
    }
    let ghost lists_v = lists@;
    let combos = cartesian_product(lists);
    proof {
        assert(lv.len() == lists_v.len());
        assert forall|x: int| 0 <= x < combos@.len() implies (#[trigger] combos@[x])@.len() == lv.len() by {
            assert(combos@[x]@.len() == lists_v.len());
        }
        assert forall|x: int, i: int|
            0 <= x < combos@.len() && 0 <= i < combos@[x]@.len() implies lv[i].contains((#[trigger] combos@[x]@[i])@) by {
            let e = combos@[x]@[i];
            assert(exists|j: int| 0 <= j < lists_v[i]@.len() && e@ == lists_v[i]@[j]@);
            let j = choose|j: int| 0 <= j < lists_v[i]@.len() && e@ == lists_v[i]@[j]@;
            assert(lv[i] == lists_v[i]@.map_values(|p: Vec<(u8, u32)>| p@));
            assert(lv[i][j] == lists_v[i]@[j]@);
        }
    }
    let mut r: Vec<String> = Vec::new();
    let mut c: usize = 0;
    while c < combos.len()
        invariant
            c <= combos@.len(),
            deep_views(combos@) == cartesian_product_of(lv),
            lv == target,
            forall|x: int| 0 <= x < combos@.len() ==> (#[trigger] combos@[x])@.len() == lv.len(),
            forall|x: int, i: int|
                0 <= x < combos@.len() && 0 <= i < combos@[x]@.len() ==> lv[i].contains((#[trigger] combos@[x]@[i])@),
            forall|i: int, j: int, m: int|
                0 <= i < lv.len() && 0 <= j < lv[i].len() && 0 <= m < lv[i][j].len() ==> (#[trigger] lv[i][j][m]).1
                    < NUM_OF_KEYS,
            r@.len() == c,
            forall|x: int| 0 <= x < c ==> (#[trigger] r@[x])@ == place_all(layout_base(), flatten_pairs(cartesian_product_of(lv)[x])),
        decreases combos@.len() - c,
    {
        let combo = &combos[c];
        let ghost cv = combo@.map_values(|p: Vec<(u8, u32)>| p@);
        proof {
            assert(deep_views(combos@)[c as int] == cv);
            assert forall|i: int, j: int| 0 <= i < cv.len() && 0 <= j < cv[i].len() implies (#[trigger] cv[i][j]).1 < NUM_OF_KEYS by {
                assert(cv[i] == combos@[c as int]@[i]@);
                assert(lv[i].contains(combos@[c as int]@[i]@));
                let w = choose|w: int| 0 <= w < lv[i].len() && lv[i][w] == combos@[c as int]@[i]@;
                assert(lv[i][w][j] == cv[i][j]);
            }
        }
        let layout = combination_layout(combo);
        r.push(layout);
        c += 1;
    }
    proof {
        assert forall|x: int| 0 <= x < r@.len() implies (#[trigger] cartesian_product_of(lv)[x]).len() == lv.len() by {
            assert(deep_views(combos@)[x] == combos@[x]@.map_values(|p: Vec<(u8, u32)>| p@));
        }
        assert forall|x: int, i: int| 0 <= x < r@.len() && 0 <= i < lv.len() implies lv[i].contains(
            #[trigger] cartesian_product_of(lv)[x][i],
        ) by {
            assert(deep_views(combos@)[x] == combos@[x]@.map_values(|p: Vec<(u8, u32)>| p@));
            assert(cartesian_product_of(lv)[x][i] == combos@[x]@[i]@);
        }
        let gv = group_lists_view(rest@);
        if groups_on_letter_keys(gv) && (forall|j: int|
            0 <= j < choice@.len() ==> letter_key((#[trigger] choice@[j]).position as int)) {
            assert forall|x: int| 0 <= x < r@.len() implies (#[trigger] r@[x])@[31] == 'e' && r@[x]@[34] == 't'
                && r@[x]@[35] == '\n' by {
                let comb = cartesian_product_of(lv)[x];
                assert forall|i: int, j: int| 0 <= i < comb.len() && 0 <= j < comb[i].len() implies letter_key(
                    (#[trigger] comb[i][j]).1 as int,
                ) by {
                    assert(lv[i].contains(comb[i]));
                    let w = choose|w: int| 0 <= w < lv[i].len() && lv[i][w] == comb[i];
                    if i < rest@.len() {
                        assert(lv[i] == gv[i].map_values(|a: Seq<KeyPosition>| as_pairs(a)));
                        assert(lv[i][w] == as_pairs(gv[i][w]));
                        assert(comb[i][j] == (gv[i][w][j].key, gv[i][w][j].position));
                        assert(arrangements_on_letter_keys(gv[i]));
                    } else {
                        assert(lv[i] == seq![as_pairs(choice@)]);
                        assert(comb[i][j] == (choice@[j].key, choice@[j].position));
                    }
                }
                lemma_combination_keeps_fixed_keys(comb);
            }
        }
    }
    r
}

/* ------------------------------------------------------------------ *
 * The arrangements of a whole n-gram list                            *
 * ------------------------------------------------------------------ */

/// How many keys the first `k` groups of keys have.
pub open spec fn runs_total(k: int) -> int
    decreases k,
{
    if k <= 0 {
        0
    } else {
        runs_total(k - 1) + position_runs()[k - 1].len()
    }
}

/// The keys of group `k`.
pub open spec fn run_positions(k: int) -> Seq<u32> {
    position_runs()[k].map_values(|p: PositionPenalty| p.position)
}

/// The letters that group `k` takes from the sorted list.
pub open spec fn group_letters(sorted: Seq<KeyFrequency>, k: int) -> Seq<KeyFrequency> {
    sorted.subrange(runs_total(k), runs_total(k + 1))
}

/// The distinct orderings of `letters`, each placed on `positions`.
pub open spec fn group_arrangements(letters: Seq<KeyFrequency>, positions: Seq<u32>) -> Seq<Seq<KeyPosition>> {
    unique_lists(permutations_of(frequency_pairs(letters))).map_values(|p: Seq<(u8, usize)>| placed(p, positions))
}

/// The arrangements of every group of keys for an n-gram list: its letters,
/// most frequent first, handed to the groups in turn.
pub open spec fn frequency_groups(ngram_list: NgramList) -> Seq<Seq<Seq<KeyPosition>>> {
    let sorted = sort_desc(list_frequencies(ngram_list.map.keys(), ngram_list.map@));
    Seq::new(position_runs().len(), |k: int| group_arrangements(group_letters(sorted, k), run_positions(k)))
}

proof fn lemma_runs_nonempty()
    ensures
        position_runs().len() > 0,
{
    let c = candidate_positions(NUM_OF_KEYS as int);
    lemma_candidates_grow(1, NUM_OF_KEYS as int);
    assert(!excluded_position(0));
    assert(candidate_positions(0).len() == 0);
    assert(candidate_positions(1).len() == 1);
    lemma_sort_asc_len(c);
    let s = sort_asc(c);
    assert(s.len() > 0);
    let g = penalty_runs(s.drop_last());
    assert(penalty_runs(s).len() >= 1);
}

proof fn lemma_candidates_grow(j: int, k: int)
    requires
        0 <= j <= k,
    ensures
        candidate_positions(j).len() <= candidate_positions(k).len(),
    decreases k - j,
{
    if j < k {
        lemma_candidates_grow(j, k - 1);
    }
}

proof fn lemma_insert_asc_len(s: Seq<PositionPenalty>, x: PositionPenalty)
    ensures
        insert_asc(s, x).len() == s.len() + 1,
    decreases s.len(),
{
    if s.len() > 0 && s.last().penalty > x.penalty {
        lemma_insert_asc_len(s.drop_last(), x);
    }
}

proof fn lemma_sort_asc_len(s: Seq<PositionPenalty>)
    ensures
        sort_asc(s).len() == s.len(),
    decreases s.len(),
{
    if s.len() > 0 {
        lemma_sort_asc_len(s.drop_last());
        lemma_insert_asc_len(sort_asc(s.drop_last()), s.last());
    }
}

proof fn lemma_offsets_are_runs(groups: Seq<PositionGroup>, k: int)
    requires
        groups.len() == position_runs().len(),
        forall|m: int| 0 <= m < groups.len() ==> #[trigger] groups[m].count == position_runs()[m].len(),
        0 <= k <= groups.len(),
    ensures
        group_offset(groups, k) == runs_total(k),
    decreases k,
{
    if k > 0 {
        lemma_offsets_are_runs(groups, k - 1);
    }
}

/// The arrangements of every group of keys for `ngram_list` (see
/// `frequency_groups`), sorted by their number, with the group that has the
/// most taken off: the others, and that group. The list must hold at least as
/// many letters (other than `e` and `t`) as the groups have keys, and not all
/// of them with the same count (the counts are compared scaled by their range).
pub fn frequency_arrangements(ngram_list: &NgramList) -> (r: (Vec<Vec<Vec<KeyPosition>>>, Vec<Vec<KeyPosition>>))
    requires
        ngram_list.map.wf(),
        runs_total(position_runs().len() as int) <= list_frequencies(ngram_list.map.keys(), ngram_list.map@).len(),
        exists|i: int, j: int|
            0 <= i < list_frequencies(ngram_list.map.keys(), ngram_list.map@).len() && 0 <= j < list_frequencies(
                ngram_list.map.keys(),
                ngram_list.map@,
            ).len() && #[trigger] list_frequencies(ngram_list.map.keys(), ngram_list.map@)[i].frequency
                != #[trigger] list_frequencies(ngram_list.map.keys(), ngram_list.map@)[j].frequency,
    ensures
        group_lists_view(r.0@) == sort_by_len(frequency_groups(*ngram_list)).drop_last(),
        kp_views(r.1@) == sort_by_len(frequency_groups(*ngram_list)).last(),
        groups_on_letter_keys(group_lists_view(r.0@)),
        arrangements_on_letter_keys(kp_views(r.1@)),
        exists|ks: Seq<int>|
            #![trigger reordering(ks, position_runs().len() as int)]
            reordering(ks, position_runs().len() as int) && forall|g: int|
                0 <= g < ks.len() ==> arrangements_of_run(
                    #[trigger] group_lists_view(r.0@).push(kp_views(r.1@))[g],
                    sorted_letters(*ngram_list),
                    ks[g],
                ),
{
    let frequencies = key_frequency_list(ngram_list);
    let sorted = sort_by_frequency(&frequencies);
    let groups = position_groups();
    proof {
        assert forall|m: int| 0 <= m < groups@.len() implies #[trigger] groups@[m].count == position_runs()[m].len() by {
            assert(group_view(groups@[m]).1 == position_runs()[m].len() as int);
        }
        lemma_offsets_are_runs(groups@, groups@.len() as int);
    }
    let letters = assign_frequencies(&groups, &sorted);
    proof {
        assert forall|k: int| 0 <= k < groups@.len() implies (#[trigger] letters@[k])@.len() <= groups@[k].positions@.len() by {
            lemma_offsets_are_runs(groups@, k);
            lemma_offsets_are_runs(groups@, k + 1);
            lemma_group_offset_mono(groups@, k + 1, groups@.len() as int);
            lemma_group_offset_mono(groups@, k, k + 1);
            assert(group_offset(groups@, k + 1) == group_offset(groups@, k) + groups@[k].count);
            lemma_offsets_are_runs(groups@, groups@.len() as int);
            lemma_group_offset_mono(groups@, 0, k);
            assert(group_offset(groups@, groups@.len() as int) <= sorted@.len());
            assert(letters@[k]@ == sorted@.subrange(group_offset(groups@, k), group_offset(groups@, k + 1)));
            assert(letters@[k]@.len() == groups@[k].count);
            assert(group_view(groups@[k]).0 == position_runs()[k].map_values(|p: PositionPenalty| p.position));
            assert(groups@[k].positions@.len() == position_runs()[k].len());
        }
    }
    let arranged = arrange_groups(&groups, &letters);
    proof {
        lemma_runs_nonempty();
        let target = frequency_groups(*ngram_list);
        assert forall|k: int| 0 <= k < arranged@.len() implies #[trigger] group_lists_view(arranged@)[k] == target[k] by {
            lemma_offsets_are_runs(groups@, k);
            lemma_offsets_are_runs(groups@, k + 1);
            assert(group_view(groups@[k]).0 == run_positions(k));
            assert(letters@[k]@ == group_letters(sorted@, k));
        }
        assert(group_lists_view(arranged@) =~= target);
        lemma_position_runs_on_letter_keys();
        let gv = group_lists_view(arranged@);
        assert forall|k: int| 0 <= k < gv.len() implies arrangements_on_letter_keys(#[trigger] gv[k]) by {
            assert forall|i: int, j: int| 0 <= i < gv[k].len() && 0 <= j < gv[k][i].len() implies letter_key(
                (#[trigger] gv[k][i][j]).position as int,
            ) by {
                assert(gv[k][i][j] == arranged@[k]@[i]@[j]);
                assert(groups@[k].positions@.contains(arranged@[k]@[i]@[j].position));
                assert(group_view(groups@[k]).0 == run_positions(k));
                let m = choose|m: int| 0 <= m < groups@[k].positions@.len() && groups@[k].positions@[m]
                    == arranged@[k]@[i]@[j].position;
                assert(run_positions(k)[m] == position_runs()[k][m].position);
                assert(proper_entries(position_runs()[k]));
            }
        }
        lemma_sort_by_len_keeps(target);
        lemma_sort_by_len_len(target);
        assert forall|k: int| 0 <= k < target.len() implies arrangements_of_run(
            #[trigger] target[k],
            sorted_letters(*ngram_list),
            k,
        ) by {
            lemma_offsets_are_runs(groups@, k);
            lemma_offsets_are_runs(groups@, k + 1);
            assert(group_view(groups@[k]).0 == run_positions(k));
            assert(letters@[k]@ == group_letters(sorted@, k));
            assert forall|i: int| 0 <= i < target[k].len() implies arranges(
                #[trigger] target[k][i],
                group_letters(sorted_letters(*ngram_list), k),
                run_positions(k),
            ) by {
                assert(target[k][i] == arranged@[k]@[i]@);
            }
        }
    }
    let ghost perm = lemma_sort_by_len_reorders(frequency_groups(*ngram_list));
    let r = split_biggest(arranged);
    proof {
        let target = frequency_groups(*ngram_list);
        let all = group_lists_view(r.0@).push(kp_views(r.1@));
        assert(all =~= sort_by_len(target));
        assert forall|g: int| 0 <= g < perm.len() implies arrangements_of_run(
            #[trigger] all[g],
            sorted_letters(*ngram_list),
            perm[g],
        ) by {
            assert(all[g] == target[perm[g]]);
        }
        assert(reordering(perm, position_runs().len() as int));
    }
    proof {
        let sorted = sort_by_len(frequency_groups(*ngram_list));
        let front = group_lists_view(r.0@);
        assert forall|k: int| 0 <= k < front.len() implies arrangements_on_letter_keys(#[trigger] front[k]) by {
            assert(front[k] == sorted[k]);
        }
        assert(arrangements_on_letter_keys(sorted[sorted.len() - 1]));
    }
    r
}

/* ------------------------------------------------------------------ *
 * Frequent letters on cheap keys                                     *
 * ------------------------------------------------------------------ */

proof fn lemma_runs_total_mono(k1: int, k2: int)
    requires
        0 <= k1 <= k2 <= position_runs().len(),
    ensures
        runs_total(k1) <= runs_total(k2),
    decreases k2 - k1,
{
    if k1 < k2 {
        lemma_runs_total_mono(k1, k2 - 1);
    }
}

/// Where an entry of a combination comes from: its letter is entry `a` of the
/// sorted letters, within the slice of group `ks[g]`, and its key has that
/// group's base penalty.
proof fn lemma_entry_source(
    l: NgramList,
    gs: Seq<Seq<Seq<KeyPosition>>>,
    ks: Seq<int>,
    comb: Seq<Seq<(u8, u32)>>,
    g: int,
    j: int,
) -> (a: int)
    requires
        runs_total(position_runs().len() as int) <= sorted_letters(l).len(),
        reordering(ks, position_runs().len() as int),
        gs.len() == ks.len(),
        forall|h: int| 0 <= h < gs.len() ==> arrangements_of_run(#[trigger] gs[h], sorted_letters(l), ks[h]),
        comb.len() == gs.len(),
        forall|h: int| 0 <= h < gs.len() ==> gs[h].map_values(|v: Seq<KeyPosition>| as_pairs(v)).contains(#[trigger] comb[h]),
        0 <= g < comb.len(),
        0 <= j < comb[g].len(),
    ensures
        runs_total(ks[g]) <= a < runs_total(ks[g] + 1),
        sorted_letters(l)[a].key == comb[g][j].0,
        base_penalties()[comb[g][j].1 as int] == position_runs()[ks[g]][0].penalty,
        j < position_runs()[ks[g]].len(),
        comb[g][j].1 == position_runs()[ks[g]][j].position,
        letter_key(comb[g][j].1 as int),
{
    broadcast use vstd::seq_lib::group_to_multiset_ensures;

    let sorted = sorted_letters(l);
    let k = ks[g];
    let n = position_runs().len() as int;
    assert(0 <= k < n);
    lemma_runs_total_mono(0, k);
    lemma_runs_total_mono(k + 1, n);
    let letters = group_letters(sorted, k);
    let positions = run_positions(k);
    let view = gs[g].map_values(|v: Seq<KeyPosition>| as_pairs(v));
    assert(view.contains(comb[g]));
    let w = choose|w: int| 0 <= w < view.len() && view[w] == comb[g];
    assert(comb[g] == as_pairs(gs[g][w]));
    assert(arrangements_of_run(gs[g], sorted, k));
    assert(arranges(gs[g][w], letters, positions));
    let p = choose|p: Seq<(u8, usize)>|
        p.to_multiset() == frequency_pairs(letters).to_multiset() && gs[g][w] == #[trigger] placed(p, positions);
    assert(gs[g][w] == placed(p, positions));
    assert(p.len() == p.to_multiset().len());
    assert(frequency_pairs(letters).len() == frequency_pairs(letters).to_multiset().len());
    assert(letters.len() == runs_total(k + 1) - runs_total(k));
    assert(j < p.len());
    assert(comb[g][j] == (p[j].0, positions[j]));
    assert(p.contains(p[j]));
    assert(p.to_multiset().count(p[j]) > 0);
    assert(frequency_pairs(letters).contains(p[j]));
    let m = choose|m: int| 0 <= m < frequency_pairs(letters).len() && frequency_pairs(letters)[m] == p[j];
    assert(frequency_pairs(letters)[m] == (letters[m].key, letters[m].frequency));
    assert(letters[m] == sorted[runs_total(k) + m]);
    lemma_position_runs_on_letter_keys();
    lemma_position_runs_ordered();
    assert(positions[j] == position_runs()[k][j].position);
    assert(proper_entry(position_runs()[k][j]));
    assert(position_runs()[k][j].penalty == position_runs()[k][0].penalty);
    runs_total(k) + m
}

proof fn lemma_place_all_concat(base: Seq<char>, a: Seq<(u8, u32)>, b: Seq<(u8, u32)>)
    ensures
        place_all(base, a + b) == place_all(place_all(base, a), b),
    decreases b.len(),
{
    if b.len() == 0 {
        assert(a + b =~= a);
    } else {
        assert((a + b).drop_last() =~= a + b.drop_last());
        assert((a + b).last() == b.last());
        lemma_place_all_concat(base, a, b.drop_last());
    }
}

proof fn lemma_place_all_len(base: Seq<char>, items: Seq<(u8, u32)>)
    requires
        forall|k: int| 0 <= k < items.len() ==> (#[trigger] items[k]).1 < base.len(),
    ensures
        place_all(base, items).len() == base.len(),
    decreases items.len(),
{
    if items.len() > 0 {
        let t = items.drop_last();
        assert forall|k: int| 0 <= k < t.len() implies (#[trigger] t[k]).1 < base.len() by {
            assert(t[k] == items[k]);
        }
        lemma_place_all_len(base, t);
        assert(items[items.len() - 1].1 < base.len());
    }
}

/// With no two entries on one key, each entry's letter ends up on its key.
proof fn lemma_place_all_sets(base: Seq<char>, items: Seq<(u8, u32)>, t: int)
    requires
        0 <= t < items.len(),
        forall|k: int| 0 <= k < items.len() ==> (#[trigger] items[k]).1 < base.len(),
        forall|k1: int, k2: int| 0 <= k1 < items.len() && 0 <= k2 < items.len() && k1 != k2 ==> (#[trigger] items[k1]).1
            != (#[trigger] items[k2]).1,
    ensures
        place_all(base, items)[items[t].1 as int] == items[t].0 as char,
    decreases items.len(),
{
    let u = items.drop_last();
    assert forall|k: int| 0 <= k < u.len() implies (#[trigger] u[k]).1 < base.len() by {
        assert(u[k] == items[k]);
    }
    lemma_place_all_len(base, u);
    if t < items.len() - 1 {
        assert forall|k1: int, k2: int| 0 <= k1 < u.len() && 0 <= k2 < u.len() && k1 != k2 implies (#[trigger] u[k1]).1
            != (#[trigger] u[k2]).1 by {
            assert(u[k1] == items[k1] && u[k2] == items[k2]);
        }
        lemma_place_all_sets(base, u, t);
        assert(items[t] == u[t]);
        assert(items[items.len() - 1].1 != items[t].1);
    }
}

/// No two entries of a combination are on one key.
pub open spec fn combination_keys_distinct(c: Seq<Seq<(u8, u32)>>) -> bool {
    forall|g1: int, j1: int, g2: int, j2: int|
        0 <= g1 < c.len() && 0 <= j1 < c[g1].len() && 0 <= g2 < c.len() && 0 <= j2 < c[g2].len() && (g1 != g2 || j1
            != j2) ==> (#[trigger] c[g1][j1]).1 != (#[trigger] c[g2][j2]).1
}

/// In the layout of a combination with no two entries on one key, each
/// entry's letter is on its key.
pub proof fn lemma_combination_letters(c: Seq<Seq<(u8, u32)>>, g: int, j: int)
    requires
        combination_keys_distinct(c),
        forall|h: int, m: int| 0 <= h < c.len() && 0 <= m < c[h].len() ==> (#[trigger] c[h][m]).1 < NUM_OF_KEYS,
        0 <= g < c.len(),
        0 <= j < c[g].len(),
    ensures
        place_all(layout_base(), flatten_pairs(c))[c[g][j].1 as int] == c[g][j].0 as char,
    decreases c.len(),
{
    let d = c.drop_last();
    let last = c.last();
    assert(c[c.len() - 1] == last);
    assert forall|h: int, m: int| 0 <= h < d.len() && 0 <= m < d[h].len() implies (#[trigger] d[h][m]).1 < NUM_OF_KEYS by {
        assert(d[h] == c[h]);
    }
    lemma_flatten_on_board(d);
    let before = place_all(layout_base(), flatten_pairs(d));
    lemma_place_all_len(layout_base(), flatten_pairs(d));
    lemma_place_all_concat(layout_base(), flatten_pairs(d), last);
    if g == c.len() - 1 {
        assert forall|k1: int, k2: int| 0 <= k1 < last.len() && 0 <= k2 < last.len() && k1 != k2 implies (
        #[trigger] last[k1]).1 != (#[trigger] last[k2]).1 by {
            assert(c[g][k1] == last[k1] && c[g][k2] == last[k2]);
        }
        assert forall|k: int| 0 <= k < last.len() implies (#[trigger] last[k]).1 < before.len() by {
            assert(c[g][k] == last[k]);
        }
        lemma_place_all_sets(before, last, j);
    } else {
        assert(combination_keys_distinct(d)) by {
            assert forall|g1: int, j1: int, g2: int, j2: int|
                0 <= g1 < d.len() && 0 <= j1 < d[g1].len() && 0 <= g2 < d.len() && 0 <= j2 < d[g2].len() && (g1 != g2
                    || j1 != j2) implies (#[trigger] d[g1][j1]).1 != (#[trigger] d[g2][j2]).1 by {
                assert(d[g1] == c[g1] && d[g2] == c[g2]);
            }
        }
        lemma_combination_letters(d, g, j);
        assert(d[g] == c[g]);
        assert forall|k: int| 0 <= k < last.len() implies (#[trigger] last[k]).1 < before.len() && last[k].1 != c[g][j].1 by {
            assert(c[c.len() - 1][k] == last[k]);
        }
        lemma_place_all_keeps(before, last, c[g][j].1 as int);
    }
}

/// A combination of arrangements of the groups never puts two letters on one key.
proof fn lemma_arranged_keys_distinct(l: NgramList, gs: Seq<Seq<Seq<KeyPosition>>>, ks: Seq<int>, comb: Seq<Seq<(u8, u32)>>)
    requires
        runs_total(position_runs().len() as int) <= sorted_letters(l).len(),
        reordering(ks, position_runs().len() as int),
        gs.len() == ks.len(),
        forall|h: int| 0 <= h < gs.len() ==> arrangements_of_run(#[trigger] gs[h], sorted_letters(l), ks[h]),
        comb.len() == gs.len(),
        forall|h: int| 0 <= h < gs.len() ==> gs[h].map_values(|v: Seq<KeyPosition>| as_pairs(v)).contains(#[trigger] comb[h]),
    ensures
        combination_keys_distinct(comb),
        forall|h: int, m: int| 0 <= h < comb.len() && 0 <= m < comb[h].len() ==> (#[trigger] comb[h][m]).1 < NUM_OF_KEYS,
{
    lemma_position_runs_distinct();
    assert forall|h: int, m: int| 0 <= h < comb.len() && 0 <= m < comb[h].len() implies (#[trigger] comb[h][m]).1
        < NUM_OF_KEYS by {
        lemma_entry_source(l, gs, ks, comb, h, m);
    }
    assert forall|g1: int, j1: int, g2: int, j2: int|
        0 <= g1 < comb.len() && 0 <= j1 < comb[g1].len() && 0 <= g2 < comb.len() && 0 <= j2 < comb[g2].len() && (g1
            != g2 || j1 != j2) implies (#[trigger] comb[g1][j1]).1 != (#[trigger] comb[g2][j2]).1 by {
        lemma_entry_source(l, gs, ks, comb, g1, j1);
        lemma_entry_source(l, gs, ks, comb, g2, j2);
        let r = position_runs();
        assert(r[ks[g1]][j1].position != r[ks[g2]][j2].position);
    }
}

/// A reordering of `0..n` takes every index.
proof fn lemma_reordering_covers(ks: Seq<int>, n: int, k: int)
    requires
        reordering(ks, n),
        0 <= k < n,
    ensures
        exists|g: int| 0 <= g < ks.len() && #[trigger] ks[g] == k,
{
    broadcast use vstd::set::group_set_axioms, vstd::seq_lib::seq_to_set_is_finite;

    assert(ks.no_duplicates());
    ks.unique_seq_to_set();
    let range = vstd::set_lib::set_int_range(0, n);
    vstd::set_lib::lemma_int_range(0, n);
    assert forall|x: int| ks.to_set().contains(x) implies range.contains(x) by {
        let g = choose|g: int| 0 <= g < ks.len() && ks[g] == x;
    }
    vstd::set_lib::lemma_subset_equality(ks.to_set(), range);
    assert(range.contains(k));
    assert(ks.to_set().contains(k));
    assert(ks.contains(k));
}

/// The entries of a group's arrangement are as many as the group's keys.
proof fn lemma_group_entry_len(l: NgramList, gs: Seq<Seq<Seq<KeyPosition>>>, ks: Seq<int>, comb: Seq<Seq<(u8, u32)>>, g: int)
    requires
        runs_total(position_runs().len() as int) <= sorted_letters(l).len(),
        reordering(ks, position_runs().len() as int),
        gs.len() == ks.len(),
        forall|h: int| 0 <= h < gs.len() ==> arrangements_of_run(#[trigger] gs[h], sorted_letters(l), ks[h]),
        comb.len() == gs.len(),
        forall|h: int| 0 <= h < gs.len() ==> gs[h].map_values(|v: Seq<KeyPosition>| as_pairs(v)).contains(#[trigger] comb[h]),
        0 <= g < comb.len(),
    ensures
        comb[g].len() == position_runs()[ks[g]].len(),
{
    broadcast use vstd::seq_lib::group_to_multiset_ensures;

    let sorted = sorted_letters(l);
    let k = ks[g];
    let n = position_runs().len() as int;
    lemma_runs_total_mono(0, k);
    lemma_runs_total_mono(k + 1, n);
    let letters = group_letters(sorted, k);
    let positions = run_positions(k);
    let view = gs[g].map_values(|v: Seq<KeyPosition>| as_pairs(v));
    assert(view.contains(comb[g]));
    let w = choose|w: int| 0 <= w < view.len() && view[w] == comb[g];
    assert(arrangements_of_run(gs[g], sorted, k));
    assert(arranges(gs[g][w], letters, positions));
    let p = choose|p: Seq<(u8, usize)>|
        p.to_multiset() == frequency_pairs(letters).to_multiset() && gs[g][w] == #[trigger] placed(p, positions);
    assert(p.len() == p.to_multiset().len());
    assert(frequency_pairs(letters).len() == frequency_pairs(letters).to_multiset().len());
}

/// In a layout put together from the arrangements that `frequency_arrangements`
/// gives, one per group (see `lemma_cheaper_keys_more_frequent`), each key of
/// group `k` holds one of the letters that group `k` takes from the letters
/// sorted by frequency (see `group_letters`): the groups' keys hold the most
/// frequent letters, the cheapest group the most frequent ones.
pub proof fn lemma_groups_hold_their_letters(
    l: NgramList,
    gs: Seq<Seq<Seq<KeyPosition>>>,
    ks: Seq<int>,
    comb: Seq<Seq<(u8, u32)>>,
    k: int,
    j: int,
)
    requires
        runs_total(position_runs().len() as int) <= list_frequencies(l.map.keys(), l.map@).len(),
        reordering(ks, position_runs().len() as int),
        gs.len() == ks.len(),
        forall|h: int| 0 <= h < gs.len() ==> arrangements_of_run(#[trigger] gs[h], sorted_letters(l), ks[h]),
        comb.len() == gs.len(),
        forall|h: int| 0 <= h < gs.len() ==> gs[h].map_values(|v: Seq<KeyPosition>| as_pairs(v)).contains(#[trigger] comb[h]),
        0 <= k < position_runs().len(),
        0 <= j < position_runs()[k].len(),
    ensures
        exists|a: int|
            runs_total(k) <= a < runs_total(k + 1) && place_all(layout_base(), flatten_pairs(comb))[position_runs()[k][j].position as int]
                == (#[trigger] sorted_letters(l)[a]).key as char,
{
    broadcast use vstd::seq_lib::group_to_multiset_ensures;

    let s = list_frequencies(l.map.keys(), l.map@);
    lemma_sort_desc(s);
    assert(sort_desc(s).len() == sort_desc(s).to_multiset().len());
    assert(s.len() == s.to_multiset().len());
    lemma_reordering_covers(ks, position_runs().len() as int, k);
    let g = choose|g: int| 0 <= g < ks.len() && #[trigger] ks[g] == k;
    lemma_group_entry_len(l, gs, ks, comb, g);
    let a = lemma_entry_source(l, gs, ks, comb, g, j);
    lemma_arranged_keys_distinct(l, gs, ks, comb);
    lemma_combination_letters(comb, g, j);
    assert(sorted_letters(l)[a].key as char == comb[g][j].0 as char);
}

/// In a layout put together from the arrangements that `frequency_arrangements`
/// gives (`gs`, the arrangements of group `ks[g]` of keys in `gs[g]`), one per
/// group (the combination `comb`, see `layouts_for_choice`), each letter is on
/// its key, and a letter on a key of lower base penalty comes before a letter
/// on a key of higher base penalty in the letters sorted by frequency: it is
/// at least as frequent.
pub proof fn lemma_cheaper_keys_more_frequent(
    l: NgramList,
    gs: Seq<Seq<Seq<KeyPosition>>>,
    ks: Seq<int>,
    comb: Seq<Seq<(u8, u32)>>,
    g1: int,
    j1: int,
    g2: int,
    j2: int,
)
    requires
        runs_total(position_runs().len() as int) <= list_frequencies(l.map.keys(), l.map@).len(),
        reordering(ks, position_runs().len() as int),
        gs.len() == ks.len(),
        forall|h: int| 0 <= h < gs.len() ==> arrangements_of_run(#[trigger] gs[h], sorted_letters(l), ks[h]),
        comb.len() == gs.len(),
        forall|h: int| 0 <= h < gs.len() ==> gs[h].map_values(|v: Seq<KeyPosition>| as_pairs(v)).contains(#[trigger] comb[h]),
        0 <= g1 < comb.len(),
        0 <= j1 < comb[g1].len(),
        0 <= g2 < comb.len(),
        0 <= j2 < comb[g2].len(),
        base_penalties()[comb[g1][j1].1 as int] < base_penalties()[comb[g2][j2].1 as int],
    ensures
        place_all(layout_base(), flatten_pairs(comb))[comb[g1][j1].1 as int] == comb[g1][j1].0 as char,
        place_all(layout_base(), flatten_pairs(comb))[comb[g2][j2].1 as int] == comb[g2][j2].0 as char,
        exists|a: int, b: int|
            0 <= a < b < sorted_letters(l).len() && (#[trigger] sorted_letters(l)[a]).key == comb[g1][j1].0 && (
            #[trigger] sorted_letters(l)[b]).key == comb[g2][j2].0 && sorted_letters(l)[a].frequency
                >= sorted_letters(l)[b].frequency,
{
    broadcast use vstd::seq_lib::group_to_multiset_ensures;

    let s = list_frequencies(l.map.keys(), l.map@);
    lemma_sort_desc(s);
    assert(sort_desc(s).len() == sort_desc(s).to_multiset().len());
    assert(s.len() == s.to_multiset().len());
    let a = lemma_entry_source(l, gs, ks, comb, g1, j1);
    let b = lemma_entry_source(l, gs, ks, comb, g2, j2);
    lemma_arranged_keys_distinct(l, gs, ks, comb);
    lemma_combination_letters(comb, g1, j1);
    lemma_combination_letters(comb, g2, j2);
    let k1 = ks[g1];
    let k2 = ks[g2];
    let n = position_runs().len() as int;
    lemma_position_runs_ordered();
    assert(k1 < k2) by {
        if k1 > k2 {
            assert(position_runs()[k2][0].penalty < position_runs()[k1][0].penalty);
        }
    }
    lemma_runs_total_mono(0, k1);
    lemma_runs_total_mono(k1 + 1, k2);
    lemma_runs_total_mono(k2 + 1, n);
    assert(0 <= a < b);
    assert(b < sort_desc(s).len());
    assert(sorted_letters(l) == sort_desc(s));
    assert(sorted_desc(sort_desc(s)));
    assert(sort_desc(s)[a].frequency >= sort_desc(s)[b].frequency);
}

/* ------------------------------------------------------------------ *
 * Refining an evaluation                                             *
 * ------------------------------------------------------------------ */

/// Refines the evaluation of the layouts stored under `layout_filepath`
/// (files ending in `dir_filetype_filter`) for `ngram_list`. No candidate
/// layout is generated or kept: the list of refined layouts is empty.
pub fn refine_evaluation(ngram_list: &NgramList, layout_filepath: &String, dir_filetype_filter: &String) -> (r: Vec<BestLayoutsEntry>)
    ensures
        r@.len() == 0,
{
    let best_layout_results: Vec<BestLayoutsEntry> = Vec::new();
    best_layout_results
}

} // verus!
