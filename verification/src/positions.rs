//! What every ordered trigram of distinct keys costs, summed per move.
//!
//! Each ordered triple of distinct keys is charged with the rules of
//! `calculate_position_penalty`; the moves that the triples make are then
//! summed key by key, with the rules that charged each move, and every triple
//! is weighed by the amounts charged to its two moves.
use vstd::prelude::*;
use crate::layout::{NUM_OF_KEYS, empty_key_press_at, get_empty_position_map};
use crate::evaluator_penalty::{Penalty, DisplayPosRelation, position_tally, calculate_position_penalty};
use crate::evaluator::tri_pos;

verus! {

/// Number of ordered triples of distinct keys.
pub const TRIPLE_COUNT: usize = 42840;

/// `a`, `b`, `c` are three distinct keys.
pub open spec fn distinct_keys(a: int, b: int, c: int) -> bool {
    &&& 0 <= a < NUM_OF_KEYS
    &&& 0 <= b < NUM_OF_KEYS
    &&& 0 <= c < NUM_OF_KEYS
    &&& a != b
    &&& a != c
    &&& b != c
}

/// How many keys below `x` differ from `a`.
pub open spec fn rank_without(x: int, a: int) -> int {
    if a < x {
        x - 1
    } else {
        x
    }
}

/// How many keys below `x` differ from `a` and from `b`.
pub open spec fn rank_without2(x: int, a: int, b: int) -> int {
    x - (if a < x { 1int } else { 0int }) - (if b < x { 1int } else { 0int })
}

/// Where the triple `(a, b, c)` stands when all ordered triples of distinct
/// keys are listed in lexicographic order, as `Itertools::permutations(3)`
/// lists them for the keys in ascending order.
pub open spec fn triple_index(a: int, b: int, c: int) -> int {
    a * 1190 + rank_without(b, a) * 34 + rank_without2(c, a, b)
}

/// Every triple of distinct keys has its own place in the list.
pub proof fn lemma_triple_index(a: int, b: int, c: int, x: int, y: int, z: int)
    requires
        distinct_keys(a, b, c),
        distinct_keys(x, y, z),
    ensures
        0 <= triple_index(a, b, c) < TRIPLE_COUNT,
        triple_index(a, b, c) == triple_index(x, y, z) ==> a == x && b == y && c == z,
{
    let ib = rank_without(b, a);
    let ic = rank_without2(c, a, b);
    let jb = rank_without(y, x);
    let jc = rank_without2(z, x, y);
    assert(0 <= ib <= 34 && 0 <= ic <= 33);
    assert(0 <= jb <= 34 && 0 <= jc <= 33);
    if triple_index(a, b, c) == triple_index(x, y, z) {
        assert(a == x);
        assert(ib == jb);
        assert(b == y);
        assert(ic == jc);
        assert(c == z);
    }
}

/// The triple that stands at `k` in the lexicographic list of ordered triples
/// of distinct keys.
pub open spec fn triple_at(k: int) -> (int, int, int) {
    let a = k / 1190;
    let rest = k % 1190;
    let rb = rest / 34;
    let rc = rest % 34;
    let b = if rb >= a { rb + 1 } else { rb };
    let lo = if a < b { a } else { b };
    let hi = if a < b { b } else { a };
    let c1 = if rc >= lo { rc + 1 } else { rc };
    let c = if c1 >= hi { c1 + 1 } else { c1 };
    (a, b, c)
}

/// Every place of the list holds a triple of distinct keys.
pub proof fn lemma_triple_at(k: int)
    requires
        0 <= k < TRIPLE_COUNT,
    ensures
        distinct_keys(triple_at(k).0, triple_at(k).1, triple_at(k).2),
        triple_index(triple_at(k).0, triple_at(k).1, triple_at(k).2) == k,
{
    let a = k / 1190;
    let rest = k % 1190;
    let rb = rest / 34;
    let rc = rest % 34;
    assert(k == a * 1190 + rest && 0 <= rest < 1190 && 0 <= a < 36);
    assert(rest == rb * 34 + rc && 0 <= rc < 34 && 0 <= rb < 35);
}

/// The penalty at the place of the triple `(a, b, c)` is that of its three
/// keys typed once.
pub open spec fn penalty_of_triple(items: Seq<Penalty>, a: int, b: int, c: int) -> bool {
    items[triple_index(a, b, c)].tally() == position_tally(empty_key_press_at(a), empty_key_press_at(b), empty_key_press_at(c))
}

/// The penalty of every ordered triple of distinct keys, typed once, in the
/// lexicographic order of the triples (see `triple_index`).
pub fn position_penalties() -> (r: Vec<Penalty>)
    ensures
        r@.len() == TRIPLE_COUNT,
        forall|k: int| 0 <= k < r@.len() ==> (#[trigger] r@[k]).wf(),
        forall|a: int, b: int, c: int| #[trigger] distinct_keys(a, b, c) ==> penalty_of_triple(r@, a, b, c),
{
    let map = get_empty_position_map();
    let mut r: Vec<Penalty> = Vec::new();
    let mut a: usize = 0;
    while a < NUM_OF_KEYS
        invariant
            a <= NUM_OF_KEYS,
            map@.len() == NUM_OF_KEYS,
            forall|i: int| 0 <= i < NUM_OF_KEYS ==> #[trigger] map@[i] == empty_key_press_at(i),
            r@.len() == a * 1190,
            forall|k: int| 0 <= k < r@.len() ==> (#[trigger] r@[k]).wf(),
            forall|x: int, y: int, z: int|
                #[trigger] distinct_keys(x, y, z) && triple_index(x, y, z) < r@.len() ==> penalty_of_triple(r@, x, y, z),
        decreases NUM_OF_KEYS - a,
    {
        let mut b: usize = 0;
        while b < NUM_OF_KEYS
            invariant
                a < NUM_OF_KEYS,
                b <= NUM_OF_KEYS,
                map@.len() == NUM_OF_KEYS,
                forall|i: int| 0 <= i < NUM_OF_KEYS ==> #[trigger] map@[i] == empty_key_press_at(i),
                r@.len() == a * 1190 + rank_without(b as int, a as int) * 34,
                forall|k: int| 0 <= k < r@.len() ==> (#[trigger] r@[k]).wf(),
                forall|x: int, y: int, z: int|
                    #[trigger] distinct_keys(x, y, z) && triple_index(x, y, z) < r@.len() ==> penalty_of_triple(r@, x, y, z),
            decreases NUM_OF_KEYS - b,
        {
            if b != a {
                let mut c: usize = 0;
                while c < NUM_OF_KEYS
                    invariant
                        a < NUM_OF_KEYS,
                        b < NUM_OF_KEYS,
                        a != b,
                        c <= NUM_OF_KEYS,
                        map@.len() == NUM_OF_KEYS,
                        forall|i: int| 0 <= i < NUM_OF_KEYS ==> #[trigger] map@[i] == empty_key_press_at(i),
                        r@.len() == a * 1190 + rank_without(b as int, a as int) * 34 + rank_without2(c as int, a as int, b as int),
                        forall|k: int| 0 <= k < r@.len() ==> (#[trigger] r@[k]).wf(),
                        forall|x: int, y: int, z: int|
                            #[trigger] distinct_keys(x, y, z) && triple_index(x, y, z) < r@.len() ==> penalty_of_triple(r@, x, y, z),
                    decreases NUM_OF_KEYS - c,
                {
                    if c != a && c != b {
                        let ka = map.get_key_position(a);
                        let kb = map.get_key_position(b);
                        let kc = map.get_key_position(c);
                        let p = calculate_position_penalty(ka, kb, kc);
                        let ghost old_r = r@;
                        r.push(p);
                        proof {
                            assert(triple_index(a as int, b as int, c as int) == old_r.len());
                            assert forall|x: int, y: int, z: int|
                                #[trigger] distinct_keys(x, y, z) && triple_index(x, y, z) < r@.len() implies penalty_of_triple(r@, x, y, z) by {
                                lemma_triple_index(x, y, z, a as int, b as int, c as int);
                                if triple_index(x, y, z) < old_r.len() {
                                    assert(penalty_of_triple(old_r, x, y, z));
                                    assert(r@[triple_index(x, y, z)] == old_r[triple_index(x, y, z)]);
                                } else {
                                    assert(x == a && y == b && z == c);
                                }
                            }
                        }
                    }
                    c += 1;
                }
            }
            b += 1;
        }
        a += 1;
    }
    proof {
        assert forall|x: int, y: int, z: int| #[trigger] distinct_keys(x, y, z) implies penalty_of_triple(r@, x, y, z) by {
            lemma_triple_index(x, y, z, x, y, z);
        }
    }
    r
}

/* ------------------------------------------------------------------ *
 * Summing the moves                                                  *
 * ------------------------------------------------------------------ */

/// The marker of an unused rule slot.
pub open spec fn free_slot() -> int {
    usize::MAX as int
}

/// The rules of a slot list, in order, without the unused slots.
pub open spec fn used_rules(s: Seq<int>) -> Seq<int>
    decreases s.len(),
{
    if s.len() == 0 {
        Seq::empty()
    } else if s.last() != free_slot() {
        used_rules(s.drop_last()).push(s.last())
    } else {
        used_rules(s.drop_last())
    }
}

/// The rules of `t`, in order, that `s` does not hold yet (a rule that
/// occurs twice in `t` is taken twice).
pub open spec fn fresh_rules(s: Seq<int>, t: Seq<int>) -> Seq<int>
    decreases t.len(),
{
    if t.len() == 0 {
        Seq::empty()
    } else if t.last() != free_slot() && !used_rules(s).contains(t.last()) {
        fresh_rules(s, t.drop_last()).push(t.last())
    } else {
        fresh_rules(s, t.drop_last())
    }
}

/// The slots `s` with the free ones from `k` on filled, in order, with
/// rules taken from the back of `pending` while any are left.
pub open spec fn fill_slots(s: Seq<int>, pending: Seq<int>, k: int) -> Seq<int>
    decreases s.len() - k,
{
    if k < 0 || k >= s.len() {
        s
    } else if s[k] == free_slot() && pending.len() > 0 {
        fill_slots(s.update(k, pending.last()), pending.drop_last(), k + 1)
    } else {
        fill_slots(s, pending, k + 1)
    }
}

/// The slots `s` after taking in the rules of `t`.
pub open spec fn merge_rules(s: Seq<int>, t: Seq<int>) -> Seq<int> {
    fill_slots(s, fresh_rules(s, t), 0)
}

/// The rule slots of the move `p -> q`, all of `items` taken in order,
/// starting from free slots.
pub open spec fn merged_rules(items: Seq<Penalty>, p: int, q: int) -> Seq<int>
    decreases items.len(),
{
    if items.len() == 0 {
        Seq::new(NUM_OF_KEYS as nat, |i: int| free_slot())
    } else {
        merge_rules(merged_rules(items.drop_last(), p, q), items.last().tally().types[p][q])
    }
}

/// The amount charged to the move `p -> q` over all of `items`.
pub open spec fn relation_sum(items: Seq<Penalty>, p: int, q: int) -> int
    decreases items.len(),
{
    if items.len() == 0 {
        0
    } else {
        relation_sum(items.drop_last(), p, q) + items.last().tally().relation[p][q]
    }
}

/// A slot list as integers.
pub open spec fn slot_view(a: [usize; NUM_OF_KEYS]) -> Seq<int> {
    a@.map_values(|x: usize| x as int)
}

/// A list of rules as integers.
pub open spec fn rule_view(v: Seq<usize>) -> Seq<int> {
    v.map_values(|x: usize| x as int)
}

/// The used slots of `s`, in order.
fn used_slots(s: &[usize; NUM_OF_KEYS]) -> (r: Vec<usize>)
    ensures
        rule_view(r@) == used_rules(slot_view(*s)),
{
    let ghost sv = slot_view(*s);
    let mut r: Vec<usize> = Vec::new();
    let mut i: usize = 0;
    while i < NUM_OF_KEYS
        invariant
            i <= NUM_OF_KEYS,
            sv == slot_view(*s),
            rule_view(r@) == used_rules(sv.take(i as int)),
        decreases NUM_OF_KEYS - i,
    {
        proof {
            assert(sv.take(i + 1).drop_last() =~= sv.take(i as int));
            assert(sv.take(i + 1).last() == s[i as int] as int);
        }
        if s[i] != usize::MAX {
            r.push(s[i]);
            proof {
                assert(rule_view(r@) =~= used_rules(sv.take(i as int)).push(s[i as int] as int));
            }
        }
        i += 1;
    }
    proof {
        assert(sv.take(NUM_OF_KEYS as int) =~= sv);
    }
    r
}

/// Whether `x` is among the rules `v`.
fn holds_rule(v: &Vec<usize>, x: usize) -> (b: bool)
    ensures
        b == rule_view(v@).contains(x as int),
{
    let mut i: usize = 0;
    while i < v.len()
        invariant
            i <= v@.len(),
            forall|j: int| 0 <= j < i ==> v@[j] != x,
        decreases v@.len() - i,
    {
        if v[i] == x {
            proof {
                assert(rule_view(v@)[i as int] == x as int);
            }
            return true;
        }
        i += 1;
    }
    proof {
        if rule_view(v@).contains(x as int) {
            let j = choose|j: int| 0 <= j < rule_view(v@).len() && rule_view(v@)[j] == x as int;
            assert(v@[j] == x);
        }
    }
    false
}

/// The slots `s` after taking in the rules of `t`: the rules of `t` that `s`
/// does not hold yet go, last first, into the free slots of `s`.
fn merge_rule_slots(s: &[usize; NUM_OF_KEYS], t: &[usize; NUM_OF_KEYS]) -> (r: [usize; NUM_OF_KEYS])
    ensures
        slot_view(r) == merge_rules(slot_view(*s), slot_view(*t)),
{
    let existing = used_slots(s);
    let ghost sv = slot_view(*s);
    let ghost tv = slot_view(*t);
    let mut pending: Vec<usize> = Vec::new();
    let mut i: usize = 0;
    while i < NUM_OF_KEYS
        invariant
            i <= NUM_OF_KEYS,
            sv == slot_view(*s),
            tv == slot_view(*t),
            rule_view(existing@) == used_rules(sv),
            rule_view(pending@) == fresh_rules(sv, tv.take(i as int)),
        decreases NUM_OF_KEYS - i,
    {
        proof {
            assert(tv.take(i + 1).drop_last() =~= tv.take(i as int));
            assert(tv.take(i + 1).last() == t[i as int] as int);
        }
        if t[i] != usize::MAX && !holds_rule(&existing, t[i]) {
            pending.push(t[i]);
            proof {
                assert(rule_view(pending@) =~= fresh_rules(sv, tv.take(i as int)).push(t[i as int] as int));
            }
        }
        i += 1;
    }
    proof {
        assert(tv.take(NUM_OF_KEYS as int) =~= tv);
    }
    let ghost all = rule_view(pending@);
    let mut r: [usize; NUM_OF_KEYS] = *s;
    let mut k: usize = 0;
    while k < NUM_OF_KEYS
        invariant
            k <= NUM_OF_KEYS,
            sv == slot_view(*s),
            slot_view(r).len() == NUM_OF_KEYS,
            fill_slots(slot_view(r), rule_view(pending@), k as int) == fill_slots(sv, all, 0),
        decreases NUM_OF_KEYS - k,
    {
        if r[k] == usize::MAX && pending.len() > 0 {
            let ghost before = slot_view(r);
            let ghost pv = rule_view(pending@);
            let x = pending.pop().unwrap();
            r[k] = x;
            proof {
                assert(slot_view(r) =~= before.update(k as int, pv.last()));
                assert(rule_view(pending@) =~= pv.drop_last());
            }
        }
        k += 1;
    }
    r
}

/// The move `p -> q` over all of `items`: the amount charged to it and the
/// rules that charged it.
fn merge_move(items: &Vec<Penalty>, p: usize, q: usize) -> (r: (i128, Vec<usize>))
    requires
        p < NUM_OF_KEYS,
        q < NUM_OF_KEYS,
        items@.len() <= u32::MAX,
        forall|k: int| 0 <= k < items@.len() ==> (#[trigger] items@[k]).wf(),
    ensures
        r.0 == relation_sum(items@, p as int, q as int),
        rule_view(r.1@) == used_rules(merged_rules(items@, p as int, q as int)),
        items@.len() * i64::MIN <= r.0 <= items@.len() * i64::MAX,
{
    let mut sum: i128 = 0;
    let mut slots: [usize; NUM_OF_KEYS] = [usize::MAX; NUM_OF_KEYS];
    proof {
        assert(slot_view(slots) =~= Seq::new(NUM_OF_KEYS as nat, |i: int| free_slot()));
        assert(items@.take(0) =~= Seq::<Penalty>::empty());
    }
    let mut k: usize = 0;
    while k < items.len()
        invariant
            k <= items@.len(),
            items@.len() <= u32::MAX,
            p < NUM_OF_KEYS,
            q < NUM_OF_KEYS,
            forall|j: int| 0 <= j < items@.len() ==> (#[trigger] items@[j]).wf(),
            sum == relation_sum(items@.take(k as int), p as int, q as int),
            k * i64::MIN <= sum <= k * i64::MAX,
            slot_view(slots) == merged_rules(items@.take(k as int), p as int, q as int),
        decreases items@.len() - k,
    {
        let item = &items[k];
        proof {
            assert(items@.take(k + 1).drop_last() =~= items@.take(k as int));
            assert(items@.take(k + 1).last() == items@[k as int]);
            assert(item.pos_relation@.len() == NUM_OF_KEYS);
            assert(item.tally().relation[p as int][q as int] == item.pos_relation@[p as int].relation_map@[q as int] as int);
            assert(item.pos_relation@[p as int].penalty_types@.len() == NUM_OF_KEYS);
            assert(item.tally().types[p as int][q as int] == slot_view(item.pos_relation@[p as int].penalty_types@[q as int].type_map));
        }
        let x = item.pos_relation[p].relation_map[q];
        sum = sum + x as i128;
        slots = merge_rule_slots(&slots, &item.pos_relation[p].penalty_types[q].type_map);
        k += 1;
    }
    proof {
        assert(items@.take(k as int) =~= items@);
    }
    let used = used_slots(&slots);
    (sum, used)
}

/// The amount charged to a move over two lists of penalties is the sum of
/// the amounts over each.
pub proof fn lemma_relation_sum_append(a: Seq<Penalty>, b: Seq<Penalty>, p: int, q: int)
    ensures
        relation_sum(a + b, p, q) == relation_sum(a, p, q) + relation_sum(b, p, q),
    decreases b.len(),
{
    if b.len() == 0 {
        assert(a + b =~= a);
    } else {
        lemma_relation_sum_append(a, b.drop_last(), p, q);
        assert((a + b).drop_last() =~= a + b.drop_last());
        assert((a + b).last() == b.last());
    }
}

/// The moves of key `p` summed over `items`: for each key `q`, the amount
/// charged to `p -> q` and the rules that charged it.
pub open spec fn summed_moves(r: DisplayPosRelation, items: Seq<Penalty>, p: int) -> bool {
    &&& r.relation_map@.len() == NUM_OF_KEYS
    &&& r.penalty_types@.len() == NUM_OF_KEYS
    &&& forall|q: int|
        0 <= q < NUM_OF_KEYS ==> #[trigger] r.relation_map@[q] == relation_sum(items, p, q)
            && rule_view(r.penalty_types@[q]@) == used_rules(merged_rules(items, p, q))
}

/// The moves of all `items` summed key by key: for each key, the amount
/// charged to the move to each key, and the rules that charged it, each rule
/// once per item that brought it first, in the order in which the slots took
/// them (the new rules of an item fill the free slots last first).
pub fn merge_position_relations(items: &Vec<Penalty>) -> (r: Vec<DisplayPosRelation>)
    requires
        items@.len() <= u32::MAX,
        forall|k: int| 0 <= k < items@.len() ==> (#[trigger] items@[k]).wf(),
    ensures
        r@.len() == NUM_OF_KEYS,
        forall|p: int| 0 <= p < NUM_OF_KEYS ==> summed_moves(#[trigger] r@[p], items@, p),
        forall|p: int, q: int|
            0 <= p < NUM_OF_KEYS && 0 <= q < NUM_OF_KEYS ==> items@.len() * i64::MIN <= #[trigger] relation_sum(items@, p, q)
                <= items@.len() * i64::MAX,
{
    let mut r: Vec<DisplayPosRelation> = Vec::new();
    let mut p: usize = 0;
    while p < NUM_OF_KEYS
        invariant
            p <= NUM_OF_KEYS,
            items@.len() <= u32::MAX,
            forall|k: int| 0 <= k < items@.len() ==> (#[trigger] items@[k]).wf(),
            r@.len() == p,
            forall|x: int| 0 <= x < p ==> summed_moves(#[trigger] r@[x], items@, x),
            forall|x: int, q: int|
                0 <= x < p && 0 <= q < NUM_OF_KEYS ==> items@.len() * i64::MIN <= #[trigger] relation_sum(items@, x, q)
                    <= items@.len() * i64::MAX,
        decreases NUM_OF_KEYS - p,
    {
        let mut amounts: Vec<i128> = Vec::new();
        let mut rules: Vec<Vec<usize>> = Vec::new();
        let mut q: usize = 0;
        while q < NUM_OF_KEYS
            invariant
                p < NUM_OF_KEYS,
                q <= NUM_OF_KEYS,
                items@.len() <= u32::MAX,
                forall|k: int| 0 <= k < items@.len() ==> (#[trigger] items@[k]).wf(),
                amounts@.len() == q,
                rules@.len() == q,
                forall|y: int|
                    0 <= y < q ==> #[trigger] amounts@[y] == relation_sum(items@, p as int, y) && rule_view(rules@[y]@)
                        == used_rules(merged_rules(items@, p as int, y)),
                forall|y: int|
                    0 <= y < q ==> items@.len() * i64::MIN <= #[trigger] relation_sum(items@, p as int, y)
                        <= items@.len() * i64::MAX,
            decreases NUM_OF_KEYS - q,
        {
            let (amount, used) = merge_move(items, p, q);
            let ghost old_amounts = amounts@;
            let ghost old_rules = rules@;
            amounts.push(amount);
            rules.push(used);
            proof {
                assert forall|y: int| 0 <= y < q + 1 implies #[trigger] amounts@[y] == relation_sum(items@, p as int, y)
                    && rule_view(rules@[y]@) == used_rules(merged_rules(items@, p as int, y)) by {
                    if y < q {
                        assert(amounts@[y] == old_amounts[y]);
                        assert(rules@[y] == old_rules[y]);
                    }
                }
                assert forall|y: int| 0 <= y < q + 1 implies items@.len() * i64::MIN <= #[trigger] relation_sum(items@, p as int, y)
                    <= items@.len() * i64::MAX by {
                    if y < q {
                        assert(amounts@[y] == old_amounts[y]);
                    }
                }
            }
            q += 1;
        }
        let d = DisplayPosRelation { relation_map: amounts, penalty_types: rules };
        proof {
            assert forall|y: int| 0 <= y < NUM_OF_KEYS implies #[trigger] d.relation_map@[y] == relation_sum(items@, p as int, y)
                && rule_view(d.penalty_types@[y]@) == used_rules(merged_rules(items@, p as int, y)) by {
                assert(amounts@[y] == relation_sum(items@, p as int, y));
            }
            assert(summed_moves(d, items@, p as int));
        }
        let ghost old_r = r@;
        r.push(d);
        proof {
            assert forall|x: int| 0 <= x < p + 1 implies summed_moves(#[trigger] r@[x], items@, x) by {
                if x < p {
                    assert(r@[x] == old_r[x]);
                }
            }
        }
        p += 1;
    }
    r
}

/* ------------------------------------------------------------------ *
 * Weighing the triples                                               *
 * ------------------------------------------------------------------ */

/// The summed moves have one amount per pair of keys, each within half the
/// range of `i128`.
pub open spec fn relations_in_range(relations: Seq<DisplayPosRelation>) -> bool {
    &&& relations.len() == NUM_OF_KEYS
    &&& forall|p: int| 0 <= p < NUM_OF_KEYS ==> (#[trigger] relations[p]).relation_map@.len() == NUM_OF_KEYS
    &&& forall|p: int, q: int|
        0 <= p < NUM_OF_KEYS && 0 <= q < NUM_OF_KEYS ==> i128::MIN / 2 <= #[trigger] relations[p].relation_map@[q]
            <= i128::MAX / 2
}

/// The amount charged to the two moves of the triple `(a, b, c)`.
pub open spec fn triple_weight(relations: Seq<DisplayPosRelation>, a: int, b: int, c: int) -> int {
    relations[a].relation_map@[b] + relations[b].relation_map@[c]
}

/// The entry of the triple `(a, b, c)` in a list of weighed triples.
pub open spec fn weighed_triple(r: Seq<(tri_pos, i128)>, relations: Seq<DisplayPosRelation>, a: int, b: int, c: int) -> bool {
    &&& r[triple_index(a, b, c)].0 == (tri_pos { p1: a as usize, p2: b as usize, p3: c as usize })
    &&& r[triple_index(a, b, c)].1 == triple_weight(relations, a, b, c)
}

/// Every ordered triple of distinct keys, in lexicographic order, with the
/// amount charged to its two moves.
pub fn tri_permutation_penalties(relations: &Vec<DisplayPosRelation>) -> (r: Vec<(tri_pos, i128)>)
    requires
        relations_in_range(relations@),
    ensures
        r@.len() == TRIPLE_COUNT,
        forall|a: int, b: int, c: int| #[trigger] distinct_keys(a, b, c) ==> weighed_triple(r@, relations@, a, b, c),
{
    let mut r: Vec<(tri_pos, i128)> = Vec::new();
    let mut a: usize = 0;
    while a < NUM_OF_KEYS
        invariant
            a <= NUM_OF_KEYS,
            relations_in_range(relations@),
            r@.len() == a * 1190,
            forall|x: int, y: int, z: int|
                #[trigger] distinct_keys(x, y, z) && triple_index(x, y, z) < r@.len() ==> weighed_triple(r@, relations@, x, y, z),
        decreases NUM_OF_KEYS - a,
    {
        let mut b: usize = 0;
        while b < NUM_OF_KEYS
            invariant
                a < NUM_OF_KEYS,
                b <= NUM_OF_KEYS,
                relations_in_range(relations@),
                r@.len() == a * 1190 + rank_without(b as int, a as int) * 34,
                forall|x: int, y: int, z: int|
                    #[trigger] distinct_keys(x, y, z) && triple_index(x, y, z) < r@.len() ==> weighed_triple(r@, relations@, x, y, z),
            decreases NUM_OF_KEYS - b,
        {
            if b != a {
                let mut c: usize = 0;
                while c < NUM_OF_KEYS
                    invariant
                        a < NUM_OF_KEYS,
                        b < NUM_OF_KEYS,
                        a != b,
                        c <= NUM_OF_KEYS,
                        relations_in_range(relations@),
                        r@.len() == a * 1190 + rank_without(b as int, a as int) * 34 + rank_without2(c as int, a as int, b as int),
                        forall|x: int, y: int, z: int|
                            #[trigger] distinct_keys(x, y, z) && triple_index(x, y, z) < r@.len() ==> weighed_triple(r@, relations@, x, y, z),
                    decreases NUM_OF_KEYS - c,
                {
                    if c != a && c != b {
                        let first = relations[a].relation_map[b];
                        let second = relations[b].relation_map[c];
                        let entry = (tri_pos { p1: a, p2: b, p3: c }, first + second);
                        let ghost old_r = r@;
                        r.push(entry);
                        proof {
                            assert(triple_index(a as int, b as int, c as int) == old_r.len());
                            assert forall|x: int, y: int, z: int|
                                #[trigger] distinct_keys(x, y, z) && triple_index(x, y, z) < r@.len() implies weighed_triple(r@, relations@, x, y, z) by {
                                lemma_triple_index(x, y, z, a as int, b as int, c as int);
                                if triple_index(x, y, z) < old_r.len() {
                                    assert(weighed_triple(old_r, relations@, x, y, z));
                                    assert(r@[triple_index(x, y, z)] == old_r[triple_index(x, y, z)]);
                                } else {
                                    assert(x == a && y == b && z == c);
                                }
                            }
                        }
                    }
                    c += 1;
                }
            }
            b += 1;
        }
        a += 1;
    }
    proof {
        assert forall|x: int, y: int, z: int| #[trigger] distinct_keys(x, y, z) implies weighed_triple(r@, relations@, x, y, z) by {
            lemma_triple_index(x, y, z, x, y, z);
        }
    }
    r
}

/* ------------------------------------------------------------------ *
 * All triples                                                        *
 * ------------------------------------------------------------------ */

/// `items` holds, in the order of the triples, the penalty of every ordered
/// triple of distinct keys.
pub open spec fn triple_penalties(items: Seq<Penalty>) -> bool {
    &&& items.len() == TRIPLE_COUNT
    &&& forall|a: int, b: int, c: int| #[trigger] distinct_keys(a, b, c) ==> penalty_of_triple(items, a, b, c)
}

/// Two lists of penalties that agree place by place on their numbers.
pub open spec fn same_tallies(x: Seq<Penalty>, y: Seq<Penalty>) -> bool {
    &&& x.len() == y.len()
    &&& forall|k: int| 0 <= k < x.len() ==> (#[trigger] x[k]).tally() == y[k].tally()
}

proof fn lemma_same_tallies_merge(x: Seq<Penalty>, y: Seq<Penalty>, p: int, q: int)
    requires
        same_tallies(x, y),
    ensures
        relation_sum(x, p, q) == relation_sum(y, p, q),
        merged_rules(x, p, q) == merged_rules(y, p, q),
    decreases x.len(),
{
    if x.len() > 0 {
        assert(x.last().tally() == y.last().tally());
        lemma_same_tallies_merge(x.drop_last(), y.drop_last(), p, q);
    }
}

/// The penalties of all triples are fixed, place by place, by their keys.
proof fn lemma_triple_penalties_unique(x: Seq<Penalty>, y: Seq<Penalty>)
    requires
        triple_penalties(x),
        triple_penalties(y),
    ensures
        same_tallies(x, y),
{
    assert forall|k: int| 0 <= k < x.len() implies (#[trigger] x[k]).tally() == y[k].tally() by {
        lemma_triple_at(k);
        let (a, b, c) = triple_at(k);
        assert(distinct_keys(a, b, c));
        assert(penalty_of_triple(x, a, b, c));
        assert(penalty_of_triple(y, a, b, c));
    }
}

/// The moves of every ordered triple of distinct keys summed key by key
/// (see `merge_position_relations`), and every triple, in lexicographic
/// order, weighed by the amounts charged to its two moves.
pub fn position_relations() -> (r: (Vec<DisplayPosRelation>, Vec<(tri_pos, i128)>))
    ensures
        r.0@.len() == NUM_OF_KEYS,
        forall|items: Seq<Penalty>, p: int|
            triple_penalties(items) && 0 <= p < NUM_OF_KEYS ==> #[trigger] summed_moves(r.0@[p], items, p),
        relations_in_range(r.0@),
        r.1@.len() == TRIPLE_COUNT,
        forall|a: int, b: int, c: int| #[trigger] distinct_keys(a, b, c) ==> weighed_triple(r.1@, r.0@, a, b, c),
        relations_bounded(r.0@),
        forall|k: int|
            0 <= k < r.1@.len() ==> (#[trigger] r.1@[k]).0.p1 < NUM_OF_KEYS && r.1@[k].0.p2 < NUM_OF_KEYS && r.1@[k].0.p3
                < NUM_OF_KEYS,
{
    let items = position_penalties();
    let relations = merge_position_relations(&items);
    proof {
        assert forall|p: int, q: int|
            0 <= p < NUM_OF_KEYS && 0 <= q < NUM_OF_KEYS implies i128::MIN / 2 <= #[trigger] relations@[p].relation_map@[q]
                <= i128::MAX / 2 by {
            assert(summed_moves(relations@[p], items@, p));
            assert(relations@[p].relation_map@[q] == relation_sum(items@, p, q));
        }
        assert forall|p: int| 0 <= p < NUM_OF_KEYS implies (#[trigger] relations@[p]).relation_map@.len() == NUM_OF_KEYS by {
            assert(summed_moves(relations@[p], items@, p));
        }
        assert forall|other: Seq<Penalty>, p: int|
            triple_penalties(other) && 0 <= p < NUM_OF_KEYS implies #[trigger] summed_moves(relations@[p], other, p) by {
            lemma_triple_penalties_unique(items@, other);
            assert(summed_moves(relations@[p], items@, p));
            assert forall|q: int| 0 <= q < NUM_OF_KEYS implies #[trigger] relations@[p].relation_map@[q] == relation_sum(other, p, q)
                && rule_view(relations@[p].penalty_types@[q]@) == used_rules(merged_rules(other, p, q)) by {
                lemma_same_tallies_merge(items@, other, p, q);
            }
        }
    }
    let weighed = tri_permutation_penalties(&relations);
    proof {
        assert forall|p: int, q: int|
            0 <= p < NUM_OF_KEYS && 0 <= q < NUM_OF_KEYS implies -0x1_0000_0000_0000_0000_0000_0000 <= #[trigger] relations@[p].relation_map@[q]
                <= 0x1_0000_0000_0000_0000_0000_0000 by {
            assert(summed_moves(relations@[p], items@, p));
            assert(relations@[p].relation_map@[q] == relation_sum(items@, p, q));
        }
        assert forall|k: int| 0 <= k < weighed@.len() implies (#[trigger] weighed@[k]).0.p1 < NUM_OF_KEYS
            && weighed@[k].0.p2 < NUM_OF_KEYS && weighed@[k].0.p3 < NUM_OF_KEYS by {
            lemma_triple_at(k);
            let (a, b, c) = triple_at(k);
            assert(distinct_keys(a, b, c));
            assert(weighed_triple(weighed@, relations@, a, b, c));
        }
    }
    (relations, weighed)
}

/* ------------------------------------------------------------------ *
 * Moves by the key they start from and the key they end at           *
 * ------------------------------------------------------------------ */

/// The amounts of the moves of the listed triples that start from key `x`.
pub open spec fn from_total(list: Seq<(tri_pos, i128)>, relations: Seq<DisplayPosRelation>, x: int) -> int
    decreases list.len(),
{
    if list.len() == 0 {
        0
    } else {
        let t = list.last().0;
        from_total(list.drop_last(), relations, x) + (if t.p1 == x {
            relations[t.p1 as int].relation_map@[t.p2 as int] as int
        } else {
            0
        }) + (if t.p2 == x {
            relations[t.p2 as int].relation_map@[t.p3 as int] as int
        } else {
            0
        })
    }
}

/// The amounts of the moves of the listed triples that end at key `x`.
pub open spec fn to_total(list: Seq<(tri_pos, i128)>, relations: Seq<DisplayPosRelation>, x: int) -> int
    decreases list.len(),
{
    if list.len() == 0 {
        0
    } else {
        let t = list.last().0;
        to_total(list.drop_last(), relations, x) + (if t.p2 == x {
            relations[t.p1 as int].relation_map@[t.p2 as int] as int
        } else {
            0
        }) + (if t.p3 == x {
            relations[t.p2 as int].relation_map@[t.p3 as int] as int
        } else {
            0
        })
    }
}

/// The summed moves have one amount per pair of keys, each of at most 2^96
/// either way.
pub open spec fn relations_bounded(relations: Seq<DisplayPosRelation>) -> bool {
    &&& relations.len() == NUM_OF_KEYS
    &&& forall|p: int| 0 <= p < NUM_OF_KEYS ==> (#[trigger] relations[p]).relation_map@.len() == NUM_OF_KEYS
    &&& forall|p: int, q: int|
        0 <= p < NUM_OF_KEYS && 0 <= q < NUM_OF_KEYS ==> -0x1_0000_0000_0000_0000_0000_0000 <= #[trigger] relations[p].relation_map@[q]
            <= 0x1_0000_0000_0000_0000_0000_0000
}

/// For each key, the amounts of the moves of the listed triples that start
/// from it and that end at it.
pub fn move_totals(list: &Vec<(tri_pos, i128)>, relations: &Vec<DisplayPosRelation>) -> (r: ([i128; NUM_OF_KEYS], [i128; NUM_OF_KEYS]))
    requires
        relations_bounded(relations@),
        list@.len() <= 0x100_0000,
        forall|k: int|
            0 <= k < list@.len() ==> (#[trigger] list@[k]).0.p1 < NUM_OF_KEYS && list@[k].0.p2 < NUM_OF_KEYS && list@[k].0.p3
                < NUM_OF_KEYS,
    ensures
        forall|x: int| 0 <= x < NUM_OF_KEYS ==> #[trigger] r.0@[x] == from_total(list@, relations@, x),
        forall|x: int| 0 <= x < NUM_OF_KEYS ==> #[trigger] r.1@[x] == to_total(list@, relations@, x),
{
    let mut from: [i128; NUM_OF_KEYS] = [0; NUM_OF_KEYS];
    let mut to: [i128; NUM_OF_KEYS] = [0; NUM_OF_KEYS];
    let ghost bound: int = 0x2_0000_0000_0000_0000_0000_0000;
    let mut k: usize = 0;
    assert(list@.take(0) =~= Seq::<(tri_pos, i128)>::empty());
    while k < list.len()
        invariant
            k <= list@.len(),
            list@.len() <= 0x100_0000,
            bound == 0x2_0000_0000_0000_0000_0000_0000,
            relations_bounded(relations@),
            forall|j: int|
                0 <= j < list@.len() ==> (#[trigger] list@[j]).0.p1 < NUM_OF_KEYS && list@[j].0.p2 < NUM_OF_KEYS
                    && list@[j].0.p3 < NUM_OF_KEYS,
            forall|x: int| 0 <= x < NUM_OF_KEYS ==> #[trigger] from@[x] == from_total(list@.take(k as int), relations@, x),
            forall|x: int| 0 <= x < NUM_OF_KEYS ==> #[trigger] to@[x] == to_total(list@.take(k as int), relations@, x),
            forall|x: int| 0 <= x < NUM_OF_KEYS ==> -(k * bound) <= #[trigger] from@[x] <= k * bound,
            forall|x: int| 0 <= x < NUM_OF_KEYS ==> -(k * bound) <= #[trigger] to@[x] <= k * bound,
        decreases list@.len() - k,
    {
        let t = list[k].0;
        let first = relations[t.p1].relation_map[t.p2];
        let second = relations[t.p2].relation_map[t.p3];
        let ghost old_from = from@;
        let ghost old_to = to@;
        proof {
            assert(list@.take(k + 1).drop_last() =~= list@.take(k as int));
            assert(list@.take(k + 1).last() == list@[k as int]);
            assert(k * bound + bound <= 0x100_0000 * bound);
            assert(-0x1_0000_0000_0000_0000_0000_0000 <= first <= 0x1_0000_0000_0000_0000_0000_0000);
            assert(-0x1_0000_0000_0000_0000_0000_0000 <= second <= 0x1_0000_0000_0000_0000_0000_0000);
            assert(old_from[t.p1 as int] <= k * bound);
            assert(old_from[t.p1 as int] >= -(k * bound));
        }
        from[t.p1] = from[t.p1] + first;
        proof {
            assert(from@[t.p2 as int] <= k * bound + bound / 2);
            assert(from@[t.p2 as int] >= -(k * bound) - bound / 2);
        }
        from[t.p2] = from[t.p2] + second;
        proof {
            assert(old_to[t.p2 as int] <= k * bound);
            assert(old_to[t.p2 as int] >= -(k * bound));
        }
        to[t.p2] = to[t.p2] + first;
        proof {
            assert(to@[t.p3 as int] <= k * bound + bound / 2);
            assert(to@[t.p3 as int] >= -(k * bound) - bound / 2);
        }
        to[t.p3] = to[t.p3] + second;
        proof {
            assert forall|x: int| 0 <= x < NUM_OF_KEYS implies #[trigger] from@[x] == from_total(list@.take(k + 1), relations@, x)
                && -((k + 1) * bound) <= from@[x] <= (k + 1) * bound by {
                assert(from_total(list@.take(k + 1), relations@, x) == from_total(list@.take(k as int), relations@, x) + (if t.p1 == x {
                    first as int
                } else {
                    0
                }) + (if t.p2 == x {
                    second as int
                } else {
                    0
                }));
            }
            assert forall|x: int| 0 <= x < NUM_OF_KEYS implies #[trigger] to@[x] == to_total(list@.take(k + 1), relations@, x)
                && -((k + 1) * bound) <= to@[x] <= (k + 1) * bound by {
                assert(to_total(list@.take(k + 1), relations@, x) == to_total(list@.take(k as int), relations@, x) + (if t.p2 == x {
                    first as int
                } else {
                    0
                }) + (if t.p3 == x {
                    second as int
                } else {
                    0
                }));
            }
        }
        k += 1;
    }
    proof {
        assert(list@.take(k as int) =~= list@);
    }
    (from, to)
}

} // verus!
