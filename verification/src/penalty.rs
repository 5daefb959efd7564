//! The typing-effort penalty of a layout over a list of trigrams.
//!
//! Every trigram of the corpus is typed on the layout; each key press, each
//! pair of consecutive presses and the trigram as a whole may attract a
//! penalty (or, for comfortable motions, a reward). Penalties are kept per
//! category, per key and in total, together with how often each finger, hand
//! and key is used.
//!
//! All amounts are exact integers in tenths of a point: the rules only use
//! amounts that are whole multiples of a tenth.
use vstd::prelude::*;
use crate::layout::{
    Finger, Hand, Row, KeyPress, Layout, NUM_OF_KEYS, finger_rank, row_rank, row_distance, key_position,
    lemma_key_position_carries, apply_swaps, swappable_swaps, random_usize,
};
use vstd::string::StringExecFns;

verus! {

/// Number of penalty categories.
pub const NUM_PENALTIES: usize = 16;

// Every rule logs at most 200 tenths per occurrence, and adds at most 1000
// tenths to the penalty of one key; the overflow budgets below use these bounds.

/// One penalty category: how often it applied and its accumulated amount
/// (in tenths of a point).
#[derive(Clone)]
pub struct KeyPenalty {
    pub name: String,
    pub times: usize,
    pub total: i64,
    pub show: bool,
}

/// The penalty of a layout over a corpus.
#[derive(Clone)]
pub struct Penalty {
    /// Per category, in the order of `penalty_names`.
    pub penalties: Vec<KeyPenalty>,
    /// How often each key was pressed.
    pub pos: [usize; NUM_OF_KEYS],
    /// Penalty attributed to each key (unweighted by trigram counts), in tenths.
    pub pos_pen: [i64; NUM_OF_KEYS],
    /// Presses per finger: left pinky..thumb at 0..5, right pinky..thumb at 5..10.
    pub fingers: [usize; 10],
    /// Presses per hand: left, right.
    pub hands: [usize; 2],
    /// Sum of all logged amounts, in tenths.
    pub total: i64,
    /// Number of key presses.
    pub len: usize,
}

/// A layout with its penalty.
#[derive(Clone)]
pub struct BestLayoutsEntry {
    pub layout: Layout,
    pub penalty: Penalty,
}

/// The numbers of a `Penalty`, as mathematical integers.
pub struct Tally {
    pub times: Seq<int>,
    pub totals: Seq<int>,
    pub total: int,
    pub pos: Seq<int>,
    pub pos_pen: Seq<int>,
    pub fingers: Seq<int>,
    pub hands: Seq<int>,
    pub len: int,
}

impl Penalty {
    pub open spec fn tally(&self) -> Tally {
        Tally {
            times: self.penalties@.map_values(|k: KeyPenalty| k.times as int),
            totals: self.penalties@.map_values(|k: KeyPenalty| k.total as int),
            total: self.total as int,
            pos: self.pos@.map_values(|x: usize| x as int),
            pos_pen: self.pos_pen@.map_values(|x: i64| x as int),
            fingers: self.fingers@.map_values(|x: usize| x as int),
            hands: self.hands@.map_values(|x: usize| x as int),
            len: self.len as int,
        }
    }

    /// One entry per category.
    pub open spec fn wf(&self) -> bool {
        self.penalties@.len() == NUM_PENALTIES
    }

    /// The name and visibility of each category.
    pub open spec fn labels(&self) -> Seq<(String, bool)> {
        self.penalties@.map_values(|k: KeyPenalty| (k.name, k.show))
    }

    /// The names and visibility of the categories are those of `other`.
    pub open spec fn same_labels(&self, other: &Penalty) -> bool {
        self.labels() == other.labels()
    }
}

/// The name of each category.
pub open spec fn penalty_names() -> Seq<Seq<char>> {
    seq![
        "Base"@, "Same finger"@, "Long jump hand"@, "Long jump"@, "Long jump consecutive"@,
        "Rinky/ring twist"@, "Roll reversal"@, "Long roll out"@, "Alternation"@, "Roll out"@,
        "Roll in"@, "long jump sandwich"@, "twist"@, "4 times no alternation"@,
        "4 alternations in a row"@, "same finger trigram"@,
    ]
}

/// Whether each category is shown in reports.
pub open spec fn penalty_shows() -> Seq<bool> {
    seq![
        true, true, true, true, true, true, true, true, true, true, true, true, true, false,
        false, true,
    ]
}

/// A tally with every count and amount at zero.
pub open spec fn empty_tally() -> Tally {
    Tally {
        times: Seq::new(NUM_PENALTIES as nat, |i: int| 0int),
        totals: Seq::new(NUM_PENALTIES as nat, |i: int| 0int),
        total: 0,
        pos: Seq::new(NUM_OF_KEYS as nat, |i: int| 0int),
        pos_pen: Seq::new(NUM_OF_KEYS as nat, |i: int| 0int),
        fingers: Seq::new(10, |i: int| 0int),
        hands: Seq::new(2, |i: int| 0int),
        len: 0,
    }
}

/* ------------------------------------------------------------------ *
 * The rules                                                          *
 * ------------------------------------------------------------------ */

/// Penalty of pressing each key, in tenths (a fifth of the key's base cost).
pub open spec fn base_penalties() -> Seq<int> {
    seq![
        16, 16, 20, 20, 16, 16,
        2, 2, 5, 5, 2, 2,
        12, 1, 1, 3, 3, 1, 1, 12,
        12, 4, 4, 5, 5, 4, 4, 12,
        10, 10,
        8, 8, 10, 10, 8, 8,
    ]
}

/// Two different keys of the same finger in a row.
pub open spec fn same_finger_penalty(prev: KeyPress, curr: KeyPress) -> int {
    if finger_rank(curr.finger) == finger_rank(prev.finger) && curr.pos != prev.pos {
        150
    } else {
        0
    }
}

/// A jump between the top and the bottom row.
pub open spec fn long_jump_hand_penalty(prev: KeyPress, curr: KeyPress) -> int {
    if (prev.row == Row::Bottom && curr.row == Row::Top) || (prev.row == Row::Top && curr.row
        == Row::Bottom) {
        50
    } else {
        0
    }
}

/// A jump between the top and the bottom row on one finger.
pub open spec fn long_jump_penalty(prev: KeyPress, curr: KeyPress) -> int {
    if long_jump_hand_penalty(prev, curr) != 0 && curr.finger == prev.finger {
        200
    } else {
        0
    }
}

/// The long-jump charge is made exactly when one finger jumps between the top
/// and the bottom row (either way): it is 20 points then, and nothing for a
/// move between two different fingers or any other pair of rows.
pub proof fn lemma_long_jump_is_one_finger_top_bottom(prev: KeyPress, curr: KeyPress)
    ensures
        long_jump_penalty(prev, curr) > 0 <==> prev.finger == curr.finger && ((prev.row == Row::Top && curr.row
            == Row::Bottom) || (prev.row == Row::Bottom && curr.row == Row::Top)),
        long_jump_penalty(prev, curr) == 0 || long_jump_penalty(prev, curr) == 200,
        prev.finger != curr.finger ==> long_jump_penalty(prev, curr) == 0,
{
}

/// A jump of two or three rows between different fingers.
pub open spec fn long_jump_consecutive_penalty(prev: KeyPress, curr: KeyPress) -> int {
    if prev.finger != curr.finger && row_distance(curr.row, prev.row) == 2 {
        50
    } else if prev.finger != curr.finger && row_distance(curr.row, prev.row) == 3 {
        80
    } else {
        0
    }
}

/// The pinky moving past the ring finger, or the ring finger reaching over the pinky.
pub open spec fn pinky_ring_twist_penalty(prev: KeyPress, curr: KeyPress) -> int {
    let (pf, cf, pr, cr) = (prev.finger, curr.finger, prev.row, curr.row);
    if (pf == Finger::Pinky && cf == Finger::Ring && ((pr == Row::MiddleBottom && cr
        == Row::MiddleBottom) || (pr == Row::Bottom && cr == Row::Bottom) || (pr
        == Row::MiddleBottom && cr == Row::Bottom))) || (pf == Finger::Ring && cf == Finger::Pinky
        && ((cr == Row::Bottom && (pr == Row::Top || pr == Row::MiddleTop || pr
        == Row::MiddleBottom)) || (cr == Row::MiddleBottom && (pr == Row::Top || pr
        == Row::MiddleTop)))) {
        100
    } else {
        0
    }
}

/// Rolling outwards (towards the pinky), costlier across more rows.
pub open spec fn roll_out_penalty(prev: KeyPress, curr: KeyPress) -> int {
    if finger_rank(prev.finger) < finger_rank(curr.finger) {
        let d = row_distance(curr.row, prev.row);
        if d == 0 {
            10
        } else if d == 1 {
            20
        } else if d == 2 {
            120
        } else {
            160
        }
    } else {
        0
    }
}

/// Rolling (reward on the same or a neighbouring row, cost across more rows).
pub open spec fn roll_in_penalty(prev: KeyPress, curr: KeyPress) -> int {
    if finger_rank(prev.finger) < finger_rank(curr.finger) {
        let d = row_distance(curr.row, prev.row);
        if d == 0 {
            -40
        } else if d == 1 {
            -20
        } else if d == 2 {
            10
        } else {
            40
        }
    } else {
        0
    }
}

/// Reward for switching hands.
pub open spec fn alternation_penalty() -> int {
    -4
}

/// Reversing the direction of a roll within one hand.
pub open spec fn roll_reversal_penalty(first: KeyPress, second: KeyPress, third: KeyPress) -> int {
    let (r1, r2, r3) = (finger_rank(first.finger), finger_rank(second.finger), finger_rank(third.finger));
    match (
        r3 < r1,
        r1 < r2,
        r3 < r2,
        third.finger == Finger::Pinky,
        third.finger == Finger::Thumb || third.finger == Finger::ThumbBottom,
        first.finger == third.finger,
    ) {
        (true, true, true, false, false, false) => 120,
        (false, false, false, true, false, false) => 80,
        (false, false, false, false, true, false) => 80,
        (false, false, false, false, false, false) => 80,
        (true, false, false, false, false, false) => 80,
        (false, false, false, false, false, true) => 40,
        (false, true, true, false, false, true) => 40,
        (false, false, false, true, false, true) => 40,
        (false, true, true, true, false, true) => 60,
        (false, false, false, false, true, true) => 40,
        _ => 0,
    }
}

/// Three presses climbing or descending the rows on three different fingers.
pub open spec fn twist_penalty(first: KeyPress, second: KeyPress, third: KeyPress) -> int {
    let (w1, w2, w3) = (row_rank(first.row), row_rank(second.row), row_rank(third.row));
    let (f1, f2, f3) = (finger_rank(first.finger), finger_rank(second.finger), finger_rank(third.finger));
    let distinct = w1 != w2 && w2 != w3 && f1 != f2 && f2 != f3 && f1 != f3;
    let monotone = (w1 > w2 && w2 > w3) || (!(w1 > w2) && !(w2 > w3));
    let wide = row_distance(second.row, first.row) > 1 || row_distance(third.row, second.row) > 1;
    if distinct && monotone {
        if wide {
            120
        } else {
            60
        }
    } else {
        0
    }
}

/// Three presses of one finger on at least two different keys.
pub open spec fn same_finger_trigram_penalty(first: KeyPress, second: KeyPress, third: KeyPress) -> int {
    if first.finger == second.finger && second.finger == third.finger && !(first.pos == second.pos
        && second.pos == third.pos) {
        100
    } else {
        0
    }
}

/// The first and third press on one finger of one hand, more than one row apart.
pub open spec fn sandwich_penalty(first: KeyPress, second: KeyPress, third: KeyPress) -> int {
    if third.hand == first.hand && third.finger == first.finger && row_distance(third.row, first.row)
        > 1 {
        30
    } else {
        0
    }
}

/* ------------------------------------------------------------------ *
 * Bookkeeping                                                        *
 * ------------------------------------------------------------------ */

/// Logs `p` (per occurrence) in category `i` for `n` occurrences; a zero amount is not logged.
#[verifier::opaque]
pub open spec fn log(t: Tally, i: int, p: int, n: int) -> Tally {
    if p != 0 {
        Tally {
            times: t.times.update(i, t.times[i] + n),
            totals: t.totals.update(i, t.totals[i] + p * n),
            total: t.total + p * n,
            ..t
        }
    } else {
        t
    }
}

/// Adds `p` to the penalty of key `pos`.
#[verifier::opaque]
pub open spec fn bump(t: Tally, pos: int, p: int) -> Tally {
    Tally { pos_pen: t.pos_pen.update(pos, t.pos_pen[pos] + p), ..t }
}

/// Slot of a finger within its hand's five counters.
pub open spec fn finger_slot(f: Finger) -> int {
    match f {
        Finger::Pinky => 0,
        Finger::Ring => 1,
        Finger::Middle => 2,
        Finger::Index => 3,
        Finger::Thumb => 4,
        Finger::ThumbBottom => 4,
    }
}

/// First finger counter of a hand.
pub open spec fn hand_offset(h: Hand) -> int {
    match h {
        Hand::Left => 0,
        Hand::Right => 5,
    }
}

/// Counts `n` presses of `kp` for its hand and finger.
#[verifier::opaque]
pub open spec fn hand_step(t: Tally, kp: KeyPress, n: int) -> Tally {
    let h = if kp.hand == Hand::Left { 0int } else { 1int };
    let f = hand_offset(kp.hand) + finger_slot(kp.finger);
    Tally {
        hands: t.hands.update(h, t.hands[h] + n),
        fingers: t.fingers.update(f, t.fingers[f] + n),
        ..t
    }
}

/// Counts `n` presses of the key of `kp`.
#[verifier::opaque]
pub open spec fn position_step(t: Tally, kp: KeyPress, n: int) -> Tally {
    Tally { pos: t.pos.update(kp.pos as int, t.pos[kp.pos as int] + n), ..t }
}

/// Logs a pair rule and charges its amount to both keys.
#[verifier::opaque]
pub open spec fn pair_step(t: Tally, i: int, p: int, prev: KeyPress, curr: KeyPress, n: int) -> Tally {
    bump(bump(log(t, i, p, n), prev.pos as int, p), curr.pos as int, p)
}

/// The base penalty of one press.
#[verifier::opaque]
pub open spec fn base_step(t: Tally, kp: KeyPress, n: int) -> Tally {
    let p = base_penalties()[kp.pos as int];
    bump(log(t, 0, p, n), kp.pos as int, p)
}

/// The rules for two consecutive presses of one hand.
pub open spec fn same_hand_step(t: Tally, prev: KeyPress, curr: KeyPress, n: int) -> Tally {
    if prev.hand == curr.hand {
        let t1 = pair_step(t, 1, same_finger_penalty(prev, curr), prev, curr, n);
        let t2 = pair_step(t1, 2, long_jump_hand_penalty(prev, curr), prev, curr, n);
        let t3 = pair_step(t2, 3, long_jump_penalty(prev, curr), prev, curr, n);
        let t4 = pair_step(t3, 4, long_jump_consecutive_penalty(prev, curr), prev, curr, n);
        let t5 = pair_step(t4, 5, pinky_ring_twist_penalty(prev, curr), prev, curr, n);
        let t6 = pair_step(t5, 9, roll_out_penalty(prev, curr), prev, curr, n);
        pair_step(t6, 10, roll_in_penalty(prev, curr), prev, curr, n)
    } else {
        t
    }
}

/// The rule for two consecutive presses of different hands.
pub open spec fn different_hand_step(t: Tally, prev: KeyPress, curr: KeyPress, n: int) -> Tally {
    if prev.hand != curr.hand {
        pair_step(t, 8, alternation_penalty(), prev, curr, n)
    } else {
        t
    }
}

/// Charges `p` to each of three keys.
#[verifier::opaque]
pub open spec fn bump3(t: Tally, a: KeyPress, b: KeyPress, c: KeyPress, p: int) -> Tally {
    bump(bump(bump(t, a.pos as int, p), b.pos as int, p), c.pos as int, p)
}

/// The rules for three presses of one hand: roll reversal, twist and
/// same-finger trigram; nothing unless one hand types all three.
pub open spec fn hand_trigram_step(t: Tally, a: KeyPress, b: KeyPress, c: KeyPress, n: int) -> Tally {
    if a.hand == b.hand && b.hand == c.hand {
        let rev = roll_reversal_penalty(a, b, c);
        let tw = twist_penalty(a, b, c);
        let sf = same_finger_trigram_penalty(a, b, c);
        bump3(log(log(log(t, 6, rev, n), 12, tw, n), 15, sf, n), a, b, c, rev + tw + sf)
    } else {
        t
    }
}

/// The long-jump sandwich rule of a trigram.
pub open spec fn sandwich_step(t: Tally, a: KeyPress, b: KeyPress, c: KeyPress, n: int) -> Tally {
    let sw = sandwich_penalty(a, b, c);
    bump3(log(t, 11, sw, n), a, b, c, sw)
}

/// The rules for a whole trigram.
pub open spec fn trigram_step(t: Tally, a: KeyPress, b: KeyPress, c: KeyPress, n: int) -> Tally {
    sandwich_step(hand_trigram_step(t, a, b, c, n), a, b, c, n)
}

/// Everything that typing the trigram `a b c`, `n` times, adds to a tally.
pub open spec fn add_trigram(t: Tally, a: KeyPress, b: KeyPress, c: KeyPress, n: int) -> Tally {
    let t0 = Tally { len: t.len + 3 * n, ..t };
    let t1 = hand_step(hand_step(hand_step(t0, a, n), b, n), c, n);
    let t2 = position_step(position_step(position_step(t1, a, n), b, n), c, n);
    let t3 = base_step(base_step(base_step(t2, a, n), b, n), c, n);
    let t4 = same_hand_step(same_hand_step(t3, a, b, n), b, c, n);
    let t5 = different_hand_step(different_hand_step(t4, a, b, n), b, c, n);
    trigram_step(t5, a, b, c, n)
}

/// The key press of character `k` of a trigram entry.
pub open spec fn entry_key(layout: Layout, e: (Vec<char>, usize), k: int) -> KeyPress {
    key_position(layout, e.0@[k]).unwrap()
}

/// The tally of a list of (trigram, count) entries typed on `layout`.
pub open spec fn tally_of(entries: Seq<(Vec<char>, usize)>, layout: Layout) -> Tally
    decreases entries.len(),
{
    if entries.len() == 0 {
        empty_tally()
    } else {
        let e = entries.last();
        add_trigram(
            tally_of(entries.drop_last(), layout),
            entry_key(layout, e, 0),
            entry_key(layout, e, 1),
            entry_key(layout, e, 2),
            e.1 as int,
        )
    }
}

/// Every entry is at least three characters long and its first three
/// characters are on the layout.
pub open spec fn typeable(entries: Seq<(Vec<char>, usize)>, layout: Layout) -> bool {
    forall|i: int|
        0 <= i < entries.len() ==> {
            &&& #[trigger] entries[i].0@.len() >= 3
            &&& key_position(layout, entries[i].0@[0]) is Some
            &&& key_position(layout, entries[i].0@[1]) is Some
            &&& key_position(layout, entries[i].0@[2]) is Some
        }
}

/// Sum of the counts of the entries.
pub open spec fn weight(entries: Seq<(Vec<char>, usize)>) -> int
    decreases entries.len(),
{
    if entries.len() == 0 {
        0
    } else {
        weight(entries.drop_last()) + entries.last().1
    }
}

/* ------------------------------------------------------------------ *
 * Overflow budgets                                                   *
 * ------------------------------------------------------------------ */

/// The tally has one counter per category, key, finger and hand.
pub open spec fn tally_wf(t: Tally) -> bool {
    &&& t.times.len() == NUM_PENALTIES
    &&& t.totals.len() == NUM_PENALTIES
    &&& t.pos.len() == NUM_OF_KEYS
    &&& t.pos_pen.len() == NUM_OF_KEYS
    &&& t.fingers.len() == 10
    &&& t.hands.len() == 2
}

/// Every count can still grow by `c`, every amount by `a` either way, and
/// every key penalty by `p` either way, without leaving the machine types.
#[verifier::opaque]
pub open spec fn fits(t: Tally, c: int, a: int, p: int) -> bool {
    &&& tally_wf(t)
    &&& 0 <= c && 0 <= a && 0 <= p
    &&& forall|i: int| 0 <= i < NUM_PENALTIES ==> 0 <= #[trigger] t.times[i] && t.times[i] + c <= usize::MAX
    &&& forall|i: int|
        0 <= i < NUM_PENALTIES ==> i64::MIN <= #[trigger] t.totals[i] - a && t.totals[i] + a <= i64::MAX
    &&& i64::MIN <= t.total - a && t.total + a <= i64::MAX
    &&& forall|k: int| 0 <= k < NUM_OF_KEYS ==> 0 <= #[trigger] t.pos[k] && t.pos[k] + c <= usize::MAX
    &&& forall|k: int|
        0 <= k < NUM_OF_KEYS ==> i64::MIN <= #[trigger] t.pos_pen[k] - p && t.pos_pen[k] + p <= i64::MAX
    &&& forall|k: int| 0 <= k < 10 ==> 0 <= #[trigger] t.fingers[k] && t.fingers[k] + c <= usize::MAX
    &&& forall|k: int| 0 <= k < 2 ==> 0 <= #[trigger] t.hands[k] && t.hands[k] + c <= usize::MAX
    &&& 0 <= t.len && t.len + c <= usize::MAX
}

pub proof fn lemma_fits_mono(t: Tally, c: int, a: int, p: int, c2: int, a2: int, p2: int)
    requires
        fits(t, c, a, p),
        0 <= c2 <= c,
        0 <= a2 <= a,
        0 <= p2 <= p,
    ensures
        fits(t, c2, a2, p2),
{
    reveal(fits);
}

proof fn lemma_mul_bound(p: int, n: int)
    requires
        -200 <= p <= 200,
        0 <= n,
    ensures
        -200 * n <= p * n <= 200 * n,
{
    assert(-200 * n <= p * n <= 200 * n) by (nonlinear_arith)
        requires
            -200 <= p <= 200,
            0 <= n,
    ;
}

pub proof fn lemma_log_fits(t: Tally, i: int, p: int, n: int, c: int, a: int, q: int)
    requires
        fits(t, c + n, a + 200 * n, q),
        0 <= i < NUM_PENALTIES,
        -200 <= p <= 200,
        0 <= n,
        0 <= c,
        0 <= a,
    ensures
        fits(log(t, i, p, n), c, a, q),
        tally_wf(log(t, i, p, n)),
{
    reveal(fits);
    reveal(log);
    lemma_mul_bound(p, n);
    let t2 = log(t, i, p, n);
    if p != 0 {
        assert forall|j: int| 0 <= j < NUM_PENALTIES implies 0 <= #[trigger] t2.times[j] && t2.times[j]
            + c <= usize::MAX by {
            if j != i {
                assert(t2.times[j] == t.times[j]);
            }
        }
        assert forall|j: int| 0 <= j < NUM_PENALTIES implies i64::MIN <= #[trigger] t2.totals[j] - a
            && t2.totals[j] + a <= i64::MAX by {
            if j != i {
                assert(t2.totals[j] == t.totals[j]);
            } else {
                assert(i64::MIN <= t.totals[i] - (a + 200 * n));
                assert(t.totals[i] + (a + 200 * n) <= i64::MAX);
                assert(t2.totals[j] == t.totals[i] + p * n);
            }
        }
    } else {
        lemma_fits_mono(t, c + n, a + 200 * n, q, c, a, q);
    }
}

pub proof fn lemma_bump_fits(t: Tally, pos: int, p: int, c: int, a: int, q: int)
    requires
        fits(t, c, a, q + 1000),
        0 <= pos < NUM_OF_KEYS,
        -1000 <= p <= 1000,
        0 <= q,
    ensures
        fits(bump(t, pos, p), c, a, q),
{
    reveal(fits);
    reveal(bump);
}

pub proof fn lemma_pair_fits(t: Tally, i: int, p: int, prev: KeyPress, curr: KeyPress, n: int, c: int, a: int, q: int)
    requires
        fits(t, c + n, a + 200 * n, q + 2 * 1000),
        0 <= i < NUM_PENALTIES,
        -200 <= p <= 200,
        prev.pos < NUM_OF_KEYS,
        curr.pos < NUM_OF_KEYS,
        0 <= n,
        0 <= c,
        0 <= a,
        0 <= q,
    ensures
        fits(pair_step(t, i, p, prev, curr, n), c, a, q),
{
    reveal(pair_step);
    lemma_log_fits(t, i, p, n, c, a, q + 2 * 1000);
    let t1 = log(t, i, p, n);
    lemma_bump_fits(t1, prev.pos as int, p, c, a, q + 1000);
    lemma_bump_fits(bump(t1, prev.pos as int, p), curr.pos as int, p, c, a, q);
}


pub proof fn lemma_bump3_fits(t: Tally, a: KeyPress, b: KeyPress, c: KeyPress, p: int, cc: int, aa: int, q: int)
    requires
        fits(t, cc, aa, q + 3000),
        a.pos < NUM_OF_KEYS,
        b.pos < NUM_OF_KEYS,
        c.pos < NUM_OF_KEYS,
        -1000 <= p <= 1000,
        0 <= q,
    ensures
        fits(bump3(t, a, b, c, p), cc, aa, q),
{
    reveal(bump3);
    lemma_bump_fits(t, a.pos as int, p, cc, aa, q + 2000);
    let t1 = bump(t, a.pos as int, p);
    lemma_bump_fits(t1, b.pos as int, p, cc, aa, q + 1000);
    lemma_bump_fits(bump(t1, b.pos as int, p), c.pos as int, p, cc, aa, q);
}

pub proof fn lemma_hand_trigram_fits(t: Tally, a: KeyPress, b: KeyPress, c: KeyPress, n: int, cc: int, aa: int, q: int)
    requires
        fits(t, cc + 3 * n, aa + 600 * n, q + 3000),
        a.pos < NUM_OF_KEYS,
        b.pos < NUM_OF_KEYS,
        c.pos < NUM_OF_KEYS,
        0 <= n,
        0 <= cc,
        0 <= aa,
        0 <= q,
    ensures
        fits(hand_trigram_step(t, a, b, c, n), cc, aa, q),
{
    if a.hand == b.hand && b.hand == c.hand {
        let rev = roll_reversal_penalty(a, b, c);
        let tw = twist_penalty(a, b, c);
        let sf = same_finger_trigram_penalty(a, b, c);
        lemma_log_fits(t, 6, rev, n, cc + 2 * n, aa + 400 * n, q + 3000);
        let t1 = log(t, 6, rev, n);
        lemma_log_fits(t1, 12, tw, n, cc + n, aa + 200 * n, q + 3000);
        let t2 = log(t1, 12, tw, n);
        lemma_log_fits(t2, 15, sf, n, cc, aa, q + 3000);
        lemma_bump3_fits(log(t2, 15, sf, n), a, b, c, rev + tw + sf, cc, aa, q);
    } else {
        lemma_fits_mono(t, cc + 3 * n, aa + 600 * n, q + 3000, cc, aa, q);
    }
}


pub proof fn lemma_hand_step_fits(t: Tally, kp: KeyPress, n: int, cc: int, aa: int, q: int)
    requires
        fits(t, cc + n, aa, q),
        0 <= n,
        0 <= cc,
    ensures
        fits(hand_step(t, kp, n), cc, aa, q),
{
    reveal(fits);
    reveal(hand_step);
}

pub proof fn lemma_position_step_fits(t: Tally, kp: KeyPress, n: int, cc: int, aa: int, q: int)
    requires
        fits(t, cc + n, aa, q),
        kp.pos < NUM_OF_KEYS,
        0 <= n,
        0 <= cc,
    ensures
        fits(position_step(t, kp, n), cc, aa, q),
{
    reveal(fits);
    reveal(position_step);
}

pub proof fn lemma_base_fits(t: Tally, kp: KeyPress, n: int, cc: int, aa: int, q: int)
    requires
        fits(t, cc + n, aa + 200 * n, q + 1000),
        kp.pos < NUM_OF_KEYS,
        0 <= n,
        0 <= cc,
        0 <= aa,
        0 <= q,
    ensures
        fits(base_step(t, kp, n), cc, aa, q),
{
    reveal(base_step);
    let p = base_penalties()[kp.pos as int];
    lemma_log_fits(t, 0, p, n, cc, aa, q + 1000);
    lemma_bump_fits(log(t, 0, p, n), kp.pos as int, p, cc, aa, q);
}

pub proof fn lemma_same_hand_fits(t: Tally, prev: KeyPress, curr: KeyPress, n: int, cc: int, aa: int, q: int)
    requires
        fits(t, cc + 7 * n, aa + 1400 * n, q + 14000),
        prev.pos < NUM_OF_KEYS,
        curr.pos < NUM_OF_KEYS,
        0 <= n,
        0 <= cc,
        0 <= aa,
        0 <= q,
    ensures
        fits(same_hand_step(t, prev, curr, n), cc, aa, q),
{
    if prev.hand == curr.hand {
        lemma_pair_fits(t, 1, same_finger_penalty(prev, curr), prev, curr, n, cc + 6 * n, aa + 1200 * n, q + 12000);
        let t1 = pair_step(t, 1, same_finger_penalty(prev, curr), prev, curr, n);
        lemma_pair_fits(t1, 2, long_jump_hand_penalty(prev, curr), prev, curr, n, cc + 5 * n, aa + 1000 * n, q + 10000);
        let t2 = pair_step(t1, 2, long_jump_hand_penalty(prev, curr), prev, curr, n);
        lemma_pair_fits(t2, 3, long_jump_penalty(prev, curr), prev, curr, n, cc + 4 * n, aa + 800 * n, q + 8000);
        let t3 = pair_step(t2, 3, long_jump_penalty(prev, curr), prev, curr, n);
        lemma_pair_fits(t3, 4, long_jump_consecutive_penalty(prev, curr), prev, curr, n, cc + 3 * n, aa + 600 * n, q + 6000);
        let t4 = pair_step(t3, 4, long_jump_consecutive_penalty(prev, curr), prev, curr, n);
        lemma_pair_fits(t4, 5, pinky_ring_twist_penalty(prev, curr), prev, curr, n, cc + 2 * n, aa + 400 * n, q + 4000);
        let t5 = pair_step(t4, 5, pinky_ring_twist_penalty(prev, curr), prev, curr, n);
        lemma_pair_fits(t5, 9, roll_out_penalty(prev, curr), prev, curr, n, cc + n, aa + 200 * n, q + 2000);
        let t6 = pair_step(t5, 9, roll_out_penalty(prev, curr), prev, curr, n);
        lemma_pair_fits(t6, 10, roll_in_penalty(prev, curr), prev, curr, n, cc, aa, q);
    } else {
        lemma_fits_mono(t, cc + 7 * n, aa + 1400 * n, q + 14000, cc, aa, q);
    }
}

pub proof fn lemma_different_hand_fits(t: Tally, prev: KeyPress, curr: KeyPress, n: int, cc: int, aa: int, q: int)
    requires
        fits(t, cc + n, aa + 200 * n, q + 2000),
        prev.pos < NUM_OF_KEYS,
        curr.pos < NUM_OF_KEYS,
        0 <= n,
        0 <= cc,
        0 <= aa,
        0 <= q,
    ensures
        fits(different_hand_step(t, prev, curr, n), cc, aa, q),
{
    if prev.hand != curr.hand {
        lemma_pair_fits(t, 8, alternation_penalty(), prev, curr, n, cc, aa, q);
    } else {
        lemma_fits_mono(t, cc + n, aa + 200 * n, q + 2000, cc, aa, q);
    }
}

pub proof fn lemma_trigram_fits(t: Tally, a: KeyPress, b: KeyPress, c: KeyPress, n: int, cc: int, aa: int, q: int)
    requires
        fits(t, cc + 4 * n, aa + 800 * n, q + 9000),
        a.pos < NUM_OF_KEYS,
        b.pos < NUM_OF_KEYS,
        c.pos < NUM_OF_KEYS,
        0 <= n,
        0 <= cc,
        0 <= aa,
        0 <= q,
    ensures
        fits(trigram_step(t, a, b, c, n), cc, aa, q),
{
    lemma_hand_trigram_fits(t, a, b, c, n, cc + n, aa + 200 * n, q + 6000);
    let t1 = hand_trigram_step(t, a, b, c, n);
    let sw = sandwich_penalty(a, b, c);
    lemma_log_fits(t1, 11, sw, n, cc, aa, q + 6000);
    lemma_fits_mono(log(t1, 11, sw, n), cc, aa, q + 6000, cc, aa, q + 3000);
    lemma_bump3_fits(log(t1, 11, sw, n), a, b, c, sw, cc, aa, q);
}


pub proof fn lemma_add_trigram_fits(t: Tally, a: KeyPress, b: KeyPress, c: KeyPress, n: int, cc: int, aa: int, q: int)
    requires
        fits(t, cc + 32 * n, aa + 4600 * n, q + 44000),
        a.pos < NUM_OF_KEYS,
        b.pos < NUM_OF_KEYS,
        c.pos < NUM_OF_KEYS,
        0 <= n,
        0 <= cc,
        0 <= aa,
        0 <= q,
    ensures
        fits(add_trigram(t, a, b, c, n), cc, aa, q),
{
    let t0 = Tally { len: t.len + 3 * n, ..t };
    assert(fits(t0, cc + 29 * n, aa + 4600 * n, q + 44000)) by {
        reveal(fits);
    }
    lemma_hand_step_fits(t0, a, n, cc + 28 * n, aa + 4600 * n, q + 44000);
    let h1 = hand_step(t0, a, n);
    lemma_hand_step_fits(h1, b, n, cc + 27 * n, aa + 4600 * n, q + 44000);
    let h2 = hand_step(h1, b, n);
    lemma_hand_step_fits(h2, c, n, cc + 26 * n, aa + 4600 * n, q + 44000);
    let t1 = hand_step(h2, c, n);
    lemma_position_step_fits(t1, a, n, cc + 25 * n, aa + 4600 * n, q + 44000);
    let p1 = position_step(t1, a, n);
    lemma_position_step_fits(p1, b, n, cc + 24 * n, aa + 4600 * n, q + 44000);
    let p2 = position_step(p1, b, n);
    lemma_position_step_fits(p2, c, n, cc + 23 * n, aa + 4600 * n, q + 44000);
    let t2 = position_step(p2, c, n);
    lemma_base_fits(t2, a, n, cc + 22 * n, aa + 4400 * n, q + 43000);
    let b1 = base_step(t2, a, n);
    lemma_base_fits(b1, b, n, cc + 21 * n, aa + 4200 * n, q + 42000);
    let b2 = base_step(b1, b, n);
    lemma_base_fits(b2, c, n, cc + 20 * n, aa + 4000 * n, q + 41000);
    let t3 = base_step(b2, c, n);
    lemma_fits_mono(t3, cc + 20 * n, aa + 4000 * n, q + 41000, cc + 20 * n, aa + 4000 * n, q + 41000);
    lemma_same_hand_fits(t3, a, b, n, cc + 13 * n, aa + 2600 * n, q + 27000);
    let s1 = same_hand_step(t3, a, b, n);
    lemma_same_hand_fits(s1, b, c, n, cc + 6 * n, aa + 1200 * n, q + 13000);
    let t4 = same_hand_step(s1, b, c, n);
    lemma_different_hand_fits(t4, a, b, n, cc + 5 * n, aa + 1000 * n, q + 11000);
    let d1 = different_hand_step(t4, a, b, n);
    lemma_different_hand_fits(d1, b, c, n, cc + 4 * n, aa + 800 * n, q + 9000);
    let t5 = different_hand_step(d1, b, c, n);
    lemma_trigram_fits(t5, a, b, c, n, cc, aa, q);
}

/* ------------------------------------------------------------------ *
 * Executable bookkeeping                                             *
 * ------------------------------------------------------------------ */

impl Penalty {
    /// A penalty with every count and amount at zero and the categories named.
    pub fn new() -> (r: Penalty)
        ensures
            r.wf(),
            r.tally() == empty_tally(),
            forall|i: int|
                0 <= i < NUM_PENALTIES ==> #[trigger] r.penalties@[i].name@ == penalty_names()[i]
                    && r.penalties@[i].show == penalty_shows()[i],
    {
        let names = [
            "Base", "Same finger", "Long jump hand", "Long jump", "Long jump consecutive",
            "Rinky/ring twist", "Roll reversal", "Long roll out", "Alternation", "Roll out",
            "Roll in", "long jump sandwich", "twist", "4 times no alternation",
            "4 alternations in a row", "same finger trigram",
        ];
        let shows = [
            true, true, true, true, true, true, true, true, true, true, true, true, true, false,
            false, true,
        ];
        let mut penalties: Vec<KeyPenalty> = Vec::new();
        let mut i: usize = 0;
        while i < NUM_PENALTIES
            invariant
                i <= NUM_PENALTIES,
                penalties@.len() == i,
                forall|k: int| 0 <= k < NUM_PENALTIES ==> #[trigger] names@[k]@ == penalty_names()[k],
                shows@ == penalty_shows(),
                forall|k: int|
                    0 <= k < i ==> (#[trigger] penalties@[k]).name@ == penalty_names()[k]
                        && penalties@[k].show == penalty_shows()[k],
                forall|k: int| 0 <= k < i ==> #[trigger] penalties@[k].times == 0,
                forall|k: int| 0 <= k < i ==> #[trigger] penalties@[k].total == 0,
            decreases NUM_PENALTIES - i,
        {
            let name = String::from_str(names[i]);
            assert(name@ == penalty_names()[i as int]);
            penalties.push(KeyPenalty { name: name, show: shows[i], total: 0, times: 0 });
            assert(penalties@[i as int].name@ == penalty_names()[i as int]);
            assert(penalties@[i as int].show == penalty_shows()[i as int]);
            i = i + 1;
        }
        let r = Penalty {
            penalties: penalties,
            pos: [0; NUM_OF_KEYS],
            pos_pen: [0; NUM_OF_KEYS],
            fingers: [0; 10],
            hands: [0; 2],
            total: 0,
            len: 0,
        };
        assert(r.tally().times =~= empty_tally().times);
        assert(r.tally().totals =~= empty_tally().totals);
        assert(r.tally().pos =~= empty_tally().pos);
        assert(r.tally().pos_pen =~= empty_tally().pos_pen);
        assert(r.tally().fingers =~= empty_tally().fingers);
        assert(r.tally().hands =~= empty_tally().hands);
        r
    }
}

/// Logging `p` per occurrence in category `i` for `n` occurrences keeps every
/// count within `usize` and every amount within `i64`.
pub open spec fn log_room(t: Tally, i: int, p: int, n: int) -> bool {
    &&& 0 <= i < NUM_PENALTIES
    &&& 0 <= n
    &&& i64::MIN <= p * n <= i64::MAX
    &&& p != 0 ==> t.times[i] + n <= usize::MAX && i64::MIN <= t.totals[i] + p * n <= i64::MAX && i64::MIN
        <= t.total + p * n <= i64::MAX
}

/// A step's budget leaves room to log any amount of at most 20 points.
pub proof fn lemma_log_room(t: Tally, i: int, p: int, n: int)
    requires
        fits(t, n, 200 * n, 0),
        0 <= i < NUM_PENALTIES,
        -200 <= p <= 200,
        0 <= n,
    ensures
        log_room(t, i, p, n),
{
    reveal(fits);
    assert(-200 * n <= p * n <= 200 * n) by (nonlinear_arith)
        requires
            -200 <= p <= 200,
            0 <= n,
    ;
    assert(t.times[i] + n <= usize::MAX);
    assert(i64::MIN <= t.totals[i] - 200 * n && t.totals[i] + 200 * n <= i64::MAX);
}

/// Logs `penalty` (per occurrence) in category `i` for `count` occurrences;
/// a zero amount is not logged.
pub fn log_penalty(i: usize, penalty: i64, count: &usize, result: &mut Penalty)
    requires
        old(result).wf(),
        i < NUM_PENALTIES,
        log_room(old(result).tally(), i as int, penalty as int, *count as int),
    ensures
        final(result).wf(),
        final(result).same_labels(old(result)),
        final(result).tally() == log(old(result).tally(), i as int, penalty as int, *count as int),
{
    reveal(log);
    if penalty != 0 {
        proof {
            assert(old(result).tally().times[i as int] == old(result).penalties@[i as int].times);
            assert(old(result).tally().totals[i as int] == old(result).penalties@[i as int].total);
        }
        let wide: i128 = penalty as i128 * *count as i128;
        let p = wide as i64;
        result.penalties[i].times = result.penalties[i].times + *count;
        result.penalties[i].total = result.penalties[i].total + p;
        result.total = result.total + p;
        proof {
            let t = log(old(result).tally(), i as int, penalty as int, *count as int);
            assert(result.tally().times =~= t.times);
            assert(result.tally().totals =~= t.totals);
            assert(result.tally().pos =~= t.pos);
            assert(result.tally().pos_pen =~= t.pos_pen);
            assert(result.tally().fingers =~= t.fingers);
            assert(result.tally().hands =~= t.hands);
            assert(result.labels() =~= old(result).labels());
        }
    }
}

/// Adds `penalty` to the penalty of the key of `kp`.
pub fn update_position_penalty(kp: &KeyPress, penalty: i64, result: &mut Penalty)
    requires
        kp.pos < NUM_OF_KEYS,
        -1000 <= penalty <= 1000,
        fits(old(result).tally(), 0, 0, 1000),
    ensures
        final(result).penalties == old(result).penalties,
        final(result).tally() == bump(old(result).tally(), kp.pos as int, penalty as int),
{
    reveal(fits);
    reveal(bump);
    proof {
        assert(old(result).tally().pos_pen[kp.pos as int] == old(result).pos_pen[kp.pos as int]);
    }
    result.pos_pen[kp.pos] = result.pos_pen[kp.pos] + penalty;
    proof {
        let t = bump(old(result).tally(), kp.pos as int, penalty as int);
        assert(result.tally().pos_pen =~= t.pos_pen);
    }
}

/// Counts `count` presses of the key of `kp`.
pub fn update_position(kp: &KeyPress, count: &usize, result: &mut Penalty)
    requires
        kp.pos < NUM_OF_KEYS,
        fits(old(result).tally(), *count as int, 0, 0),
    ensures
        final(result).penalties == old(result).penalties,
        final(result).tally() == position_step(old(result).tally(), *kp, *count as int),
{
    reveal(fits);
    reveal(position_step);
    proof {
        assert(old(result).tally().pos[kp.pos as int] == old(result).pos[kp.pos as int]);
    }
    result.pos[kp.pos] = result.pos[kp.pos] + *count;
    proof {
        let t = position_step(old(result).tally(), *kp, *count as int);
        assert(result.tally().pos =~= t.pos);
    }
}

/// Counts `count` presses of finger slot `i` of the finger of `kp`.
fn use_finger(kp: &KeyPress, count: &usize, result: &mut Penalty, i: usize)
    requires
        i == 0 || i == 5,
        forall|k: int| 0 <= k < 10 ==> old(result).fingers[k] + *count <= usize::MAX,
    ensures
        final(result).penalties == old(result).penalties,
        final(result).pos == old(result).pos,
        final(result).pos_pen == old(result).pos_pen,
        final(result).hands == old(result).hands,
        final(result).total == old(result).total,
        final(result).len == old(result).len,
        final(result).fingers@ == old(result).fingers@.update(
            i + finger_slot(kp.finger),
            (old(result).fingers@[i + finger_slot(kp.finger)] + *count) as usize,
        ),
{
    let slot: usize = match kp.finger {
        Finger::Pinky => i,
        Finger::Ring => i + 1,
        Finger::Middle => i + 2,
        Finger::Index => i + 3,
        Finger::Thumb => i + 4,
        Finger::ThumbBottom => i + 4,
    };
    result.fingers[slot] = result.fingers[slot] + *count;
}

/// Counts `count` presses of the hand and finger of `kp`.
pub fn update_hand(kp: &KeyPress, count: &usize, result: &mut Penalty)
    requires
        fits(old(result).tally(), *count as int, 0, 0),
    ensures
        final(result).penalties == old(result).penalties,
        final(result).tally() == hand_step(old(result).tally(), *kp, *count as int),
{
    reveal(fits);
    reveal(hand_step);
    let ghost t = hand_step(old(result).tally(), *kp, *count as int);
    assert forall|k: int| 0 <= k < 10 implies old(result).fingers[k] + *count <= usize::MAX by {
        assert(old(result).tally().fingers[k] == old(result).fingers[k]);
    }
    match kp.hand {
        Hand::Left => {
            proof {
                assert(old(result).tally().hands[0] == old(result).hands[0]);
            }
            result.hands[0] = result.hands[0] + *count;
            use_finger(kp, count, result, 0);
        },
        Hand::Right => {
            proof {
                assert(old(result).tally().hands[1] == old(result).hands[1]);
            }
            result.hands[1] = result.hands[1] + *count;
            use_finger(kp, count, result, 5);
        },
    }
    assert(result.tally().hands =~= t.hands);
    assert(result.tally().fingers =~= t.fingers);
}


/// Base penalty of each key, in tenths (a fifth of the key's base cost).
pub fn base_penalty_map() -> (t: [i64; NUM_OF_KEYS])
    ensures
        forall|i: int| 0 <= i < NUM_OF_KEYS ==> #[trigger] t@[i] == base_penalties()[i],
{
    let t: [i64; NUM_OF_KEYS] = [
        16, 16, 20, 20, 16, 16,
        2, 2, 5, 5, 2, 2,
        12, 1, 1, 3, 3, 1, 1, 12,
        12, 4, 4, 5, 5, 4, 4, 12,
        10, 10,
        8, 8, 10, 10, 8, 8,
    ];
    assert(t@.map_values(|x: i64| x as int) =~= base_penalties());
    assert forall|i: int| 0 <= i < NUM_OF_KEYS implies #[trigger] t@[i] == base_penalties()[i] by {
        assert(t@.map_values(|x: i64| x as int)[i] == t@[i] as int);
    }
    t
}

/// Logs the base penalty of pressing `curr`.
pub fn log_base_penalty(curr: &KeyPress, count: &usize, result: &mut Penalty)
    requires
        old(result).wf(),
        curr.pos < NUM_OF_KEYS,
        fits(old(result).tally(), *count as int, 200 * *count, 1000),
    ensures
        final(result).wf(),
        final(result).same_labels(old(result)),
        final(result).tally() == base_step(old(result).tally(), *curr, *count as int),
{
    reveal(base_step);
    let table = base_penalty_map();
    let penalty = table[curr.pos];
    proof {
        lemma_fits_mono(old(result).tally(), *count as int, 200 * *count, 1000, *count as int, 200 * *count, 0);
    }
    proof {
        lemma_log_room(result.tally(), 0 as int, penalty as int, *count as int);
    }
    log_penalty(0, penalty, count, result);
    proof {
        lemma_log_fits(old(result).tally(), 0, penalty as int, *count as int, 0, 0, 1000);
    }
    update_position_penalty(curr, penalty, result);
}

/// Logs a pair rule in category `i` and charges its amount to both keys.
fn log_pair(i: usize, penalty: i64, prev: &KeyPress, curr: &KeyPress, count: &usize, result: &mut Penalty)
    requires
        old(result).wf(),
        i < NUM_PENALTIES,
        -200 <= penalty <= 200,
        prev.pos < NUM_OF_KEYS,
        curr.pos < NUM_OF_KEYS,
        fits(old(result).tally(), *count as int, 200 * *count, 2000),
    ensures
        final(result).wf(),
        final(result).same_labels(old(result)),
        final(result).tally() == pair_step(
            old(result).tally(),
            i as int,
            penalty as int,
            *prev,
            *curr,
            *count as int,
        ),
{
    reveal(pair_step);
    proof {
        lemma_fits_mono(old(result).tally(), *count as int, 200 * *count, 2000, *count as int, 200 * *count, 0);
    }
    proof {
        lemma_log_room(result.tally(), i as int, penalty as int, *count as int);
    }
    log_penalty(i, penalty, count, result);
    proof {
        lemma_log_fits(old(result).tally(), i as int, penalty as int, *count as int, 0, 0, 2000);
    }
    let ghost t1 = result.tally();
    proof {
        lemma_fits_mono(t1, 0, 0, 2000, 0, 0, 1000);
    }
    update_position_penalty(prev, penalty, result);
    proof {
        lemma_bump_fits(t1, prev.pos as int, penalty as int, 0, 0, 1000);
    }
    update_position_penalty(curr, penalty, result);
}

/// Same finger on two different keys.
pub fn log_same_finger_penalty(prev: &KeyPress, curr: &KeyPress, count: &usize, result: &mut Penalty)
    requires
        old(result).wf(),
        prev.pos < NUM_OF_KEYS,
        curr.pos < NUM_OF_KEYS,
        fits(old(result).tally(), *count as int, 200 * *count, 2000),
    ensures
        final(result).wf(),
        final(result).same_labels(old(result)),
        final(result).tally() == pair_step(
            old(result).tally(),
            1,
            same_finger_penalty(*prev, *curr),
            *prev,
            *curr,
            *count as int,
        ),
{
    let penalty: i64 = match (curr.finger.index() == prev.finger.index(), curr.pos != prev.pos) {
        (true, true) => 150,
        _ => 0,
    };
    log_pair(1, penalty, prev, curr, count, result);
}

/// A jump between the top and bottom rows.
pub fn log_long_jump_hand(prev: &KeyPress, curr: &KeyPress, count: &usize, result: &mut Penalty)
    requires
        old(result).wf(),
        prev.pos < NUM_OF_KEYS,
        curr.pos < NUM_OF_KEYS,
        fits(old(result).tally(), *count as int, 200 * *count, 2000),
    ensures
        final(result).wf(),
        final(result).same_labels(old(result)),
        final(result).tally() == pair_step(
            old(result).tally(),
            2,
            long_jump_hand_penalty(*prev, *curr),
            *prev,
            *curr,
            *count as int,
        ),
{
    let penalty: i64 = match (prev.row, curr.row) {
        (Row::Bottom, Row::Top) => 50,
        (Row::Top, Row::Bottom) => 50,
        _ => 0,
    };
    log_pair(2, penalty, prev, curr, count, result);
}

/// A jump between the top and bottom rows on one finger.
pub fn log_long_jump(prev: &KeyPress, curr: &KeyPress, count: &usize, result: &mut Penalty)
    requires
        old(result).wf(),
        prev.pos < NUM_OF_KEYS,
        curr.pos < NUM_OF_KEYS,
        fits(old(result).tally(), *count as int, 200 * *count, 2000),
    ensures
        final(result).wf(),
        final(result).same_labels(old(result)),
        final(result).tally() == pair_step(
            old(result).tally(),
            3,
            long_jump_penalty(*prev, *curr),
            *prev,
            *curr,
            *count as int,
        ),
{
    let penalty: i64 = match (prev.row, curr.row, curr.finger == prev.finger) {
        (Row::Bottom, Row::Top, true) => 200,
        (Row::Top, Row::Bottom, true) => 200,
        _ => 0,
    };
    log_pair(3, penalty, prev, curr, count, result);
}

/// A jump of two or three rows between different fingers.
pub fn log_long_jump_consecutive(prev: &KeyPress, curr: &KeyPress, count: &usize, result: &mut Penalty)
    requires
        old(result).wf(),
        prev.pos < NUM_OF_KEYS,
        curr.pos < NUM_OF_KEYS,
        fits(old(result).tally(), *count as int, 200 * *count, 2000),
    ensures
        final(result).wf(),
        final(result).same_labels(old(result)),
        final(result).tally() == pair_step(
            old(result).tally(),
            4,
            long_jump_consecutive_penalty(*prev, *curr),
            *prev,
            *curr,
            *count as int,
        ),
{
    let penalty: i64 = match (prev.finger != curr.finger, curr.row.difference(prev.row)) {
        (true, 2) => 50,
        (true, 3) => 80,
        _ => 0,
    };
    log_pair(4, penalty, prev, curr, count, result);
}

/// Awkward pinky/ring combinations.
pub fn log_pinky_ring_twist(prev: &KeyPress, curr: &KeyPress, count: &usize, result: &mut Penalty)
    requires
        old(result).wf(),
        prev.pos < NUM_OF_KEYS,
        curr.pos < NUM_OF_KEYS,
        fits(old(result).tally(), *count as int, 200 * *count, 2000),
    ensures
        final(result).wf(),
        final(result).same_labels(old(result)),
        final(result).tally() == pair_step(
            old(result).tally(),
            5,
            pinky_ring_twist_penalty(*prev, *curr),
            *prev,
            *curr,
            *count as int,
        ),
{
    let penalty: i64 = match (prev.finger, curr.finger, prev.row, curr.row) {
        (Finger::Pinky, Finger::Ring, Row::MiddleBottom, Row::MiddleBottom) => 100,
        (Finger::Pinky, Finger::Ring, Row::Bottom, Row::Bottom) => 100,
        (Finger::Pinky, Finger::Ring, Row::MiddleBottom, Row::Bottom) => 100,
        (Finger::Ring, Finger::Pinky, Row::Top, Row::Bottom) => 100,
        (Finger::Ring, Finger::Pinky, Row::MiddleTop, Row::Bottom) => 100,
        (Finger::Ring, Finger::Pinky, Row::MiddleBottom, Row::Bottom) => 100,
        (Finger::Ring, Finger::Pinky, Row::Top, Row::MiddleBottom) => 100,
        (Finger::Ring, Finger::Pinky, Row::MiddleTop, Row::MiddleBottom) => 100,
        _ => 0,
    };
    log_pair(5, penalty, prev, curr, count, result);
}

/// Rolling outwards.
pub fn log_roll_out(prev: &KeyPress, curr: &KeyPress, count: &usize, result: &mut Penalty)
    requires
        old(result).wf(),
        prev.pos < NUM_OF_KEYS,
        curr.pos < NUM_OF_KEYS,
        fits(old(result).tally(), *count as int, 200 * *count, 2000),
    ensures
        final(result).wf(),
        final(result).same_labels(old(result)),
        final(result).tally() == pair_step(
            old(result).tally(),
            9,
            roll_out_penalty(*prev, *curr),
            *prev,
            *curr,
            *count as int,
        ),
{
    let penalty: i64 = match (prev.finger.index() < curr.finger.index(), curr.row.difference(prev.row)) {
        (true, 0) => 10,
        (true, 1) => 20,
        (true, 2) => 120,
        (true, 3) => 160,
        _ => 0,
    };
    log_pair(9, penalty, prev, curr, count, result);
}

/// Rolling (reward on near rows, cost across far rows).
pub fn log_roll_in(prev: &KeyPress, curr: &KeyPress, count: &usize, result: &mut Penalty)
    requires
        old(result).wf(),
        prev.pos < NUM_OF_KEYS,
        curr.pos < NUM_OF_KEYS,
        fits(old(result).tally(), *count as int, 200 * *count, 2000),
    ensures
        final(result).wf(),
        final(result).same_labels(old(result)),
        final(result).tally() == pair_step(
            old(result).tally(),
            10,
            roll_in_penalty(*prev, *curr),
            *prev,
            *curr,
            *count as int,
        ),
{
    let penalty: i64 = match (prev.finger.index() < curr.finger.index(), curr.row.difference(prev.row)) {
        (true, 0) => -40,
        (true, 1) => -20,
        (true, 2) => 10,
        (true, 3) => 40,
        _ => 0,
    };
    log_pair(10, penalty, prev, curr, count, result);
}


/// The rules for two consecutive presses of one hand; nothing when the hands differ.
pub fn evaluate_same_hand_penalties(prev: &KeyPress, curr: &KeyPress, count: &usize, result: &mut Penalty)
    requires
        old(result).wf(),
        prev.pos < NUM_OF_KEYS,
        curr.pos < NUM_OF_KEYS,
        fits(old(result).tally(), 7 * *count, 1400 * *count, 14000),
    ensures
        final(result).wf(),
        final(result).same_labels(old(result)),
        final(result).tally() == same_hand_step(old(result).tally(), *prev, *curr, *count as int),
{
    let ghost n = *count as int;
    let ghost t0 = result.tally();
    if prev.hand == curr.hand {
        proof {
            lemma_fits_mono(t0, 7 * n, 1400 * n, 14000, n, 200 * n, 2000);
        }
        log_same_finger_penalty(prev, curr, count, result);
        let ghost t1 = result.tally();
        proof {
            lemma_pair_fits(t0, 1, same_finger_penalty(*prev, *curr), *prev, *curr, n, 6 * n, 1200 * n, 12000);
            lemma_fits_mono(t1, 6 * n, 1200 * n, 12000, n, 200 * n, 2000);
        }
        log_long_jump_hand(prev, curr, count, result);
        let ghost t2 = result.tally();
        proof {
            lemma_pair_fits(t1, 2, long_jump_hand_penalty(*prev, *curr), *prev, *curr, n, 5 * n, 1000 * n, 10000);
            lemma_fits_mono(t2, 5 * n, 1000 * n, 10000, n, 200 * n, 2000);
        }
        log_long_jump(prev, curr, count, result);
        let ghost t3 = result.tally();
        proof {
            lemma_pair_fits(t2, 3, long_jump_penalty(*prev, *curr), *prev, *curr, n, 4 * n, 800 * n, 8000);
            lemma_fits_mono(t3, 4 * n, 800 * n, 8000, n, 200 * n, 2000);
        }
        log_long_jump_consecutive(prev, curr, count, result);
        let ghost t4 = result.tally();
        proof {
            lemma_pair_fits(t3, 4, long_jump_consecutive_penalty(*prev, *curr), *prev, *curr, n, 3 * n, 600 * n, 6000);
            lemma_fits_mono(t4, 3 * n, 600 * n, 6000, n, 200 * n, 2000);
        }
        log_pinky_ring_twist(prev, curr, count, result);
        let ghost t5 = result.tally();
        proof {
            lemma_pair_fits(t4, 5, pinky_ring_twist_penalty(*prev, *curr), *prev, *curr, n, 2 * n, 400 * n, 4000);
            lemma_fits_mono(t5, 2 * n, 400 * n, 4000, n, 200 * n, 2000);
        }
        log_roll_out(prev, curr, count, result);
        let ghost t6 = result.tally();
        proof {
            lemma_pair_fits(t5, 9, roll_out_penalty(*prev, *curr), *prev, *curr, n, n, 200 * n, 2000);
        }
        log_roll_in(prev, curr, count, result);
    }
}

/// The reward for switching hands between two consecutive presses.
pub fn evaluate_different_hand_penalties(prev: &KeyPress, curr: &KeyPress, count: &usize, result: &mut Penalty)
    requires
        old(result).wf(),
        prev.pos < NUM_OF_KEYS,
        curr.pos < NUM_OF_KEYS,
        fits(old(result).tally(), *count as int, 200 * *count, 2000),
    ensures
        final(result).wf(),
        final(result).same_labels(old(result)),
        final(result).tally() == different_hand_step(old(result).tally(), *prev, *curr, *count as int),
{
    if prev.hand != curr.hand {
        let penalty: i64 = -4;
        log_pair(8, penalty, prev, curr, count, result);
    }
}

/// The rules for three presses of one hand: roll reversal, twist and
/// same-finger trigram.
fn evaluate_hand_trigram(first: &KeyPress, second: &KeyPress, third: &KeyPress, count: &usize, result: &mut Penalty)
    requires
        old(result).wf(),
        first.pos < NUM_OF_KEYS,
        second.pos < NUM_OF_KEYS,
        third.pos < NUM_OF_KEYS,
        fits(old(result).tally(), 3 * *count, 600 * *count, 6000),
    ensures
        final(result).wf(),
        final(result).same_labels(old(result)),
        final(result).tally() == hand_trigram_step(old(result).tally(), *first, *second, *third, *count as int),
{
    let ghost n = *count as int;
    let ghost t0 = result.tally();
    if first.hand == second.hand && second.hand == third.hand {
        let r1 = first.finger.index();
        let r2 = second.finger.index();
        let r3 = third.finger.index();
        let penalty_reversal: i64 = match (
            r3 < r1,
            r1 < r2,
            r3 < r2,
            third.finger == Finger::Pinky,
            third.finger == Finger::Thumb || third.finger == Finger::ThumbBottom,
            first.finger == third.finger,
        ) {
            (true, true, true, false, false, false) => 120,
            (false, false, false, true, false, false) => 80,
            (false, false, false, false, true, false) => 80,
            (false, false, false, false, false, false) => 80,
            (true, false, false, false, false, false) => 80,
            (false, false, false, false, false, true) => 40,
            (false, true, true, false, false, true) => 40,
            (false, false, false, true, false, true) => 40,
            (false, true, true, true, false, true) => 60,
            (false, false, false, false, true, true) => 40,
            _ => 0,
        };
        proof {
            lemma_fits_mono(t0, 3 * n, 600 * n, 6000, n, 200 * n, 0);
        }
        proof {
            lemma_log_room(result.tally(), 6 as int, penalty_reversal as int, *count as int);
        }
        log_penalty(6, penalty_reversal, count, result);
        proof {
            lemma_log_fits(t0, 6, penalty_reversal as int, n, 2 * n, 400 * n, 6000);
        }
        let ghost t1 = result.tally();
        let penalty_twist: i64 = match (
            first.row.index() > second.row.index(),
            second.row.index() > third.row.index(),
            first.row.index() != second.row.index(),
            second.row.index() != third.row.index(),
            r1 != r2,
            r2 != r3,
            r1 != r3,
            second.row.difference(first.row) > 1 || third.row.difference(second.row) > 1,
        ) {
            (true, true, true, true, true, true, true, false) => 60,
            (false, false, true, true, true, true, true, false) => 60,
            (true, true, true, true, true, true, true, true) => 120,
            (false, false, true, true, true, true, true, true) => 120,
            _ => 0,
        };
        proof {
            lemma_fits_mono(t1, 2 * n, 400 * n, 6000, n, 200 * n, 0);
        }
        proof {
            lemma_log_room(result.tally(), 12 as int, penalty_twist as int, *count as int);
        }
        log_penalty(12, penalty_twist, count, result);
        proof {
            lemma_log_fits(t1, 12, penalty_twist as int, n, n, 200 * n, 6000);
        }
        let ghost t2 = result.tally();
        let penalty_trigram: i64 = match (
            first.finger == second.finger,
            second.finger == third.finger,
            first.pos != second.pos,
            second.pos != third.pos,
            third.pos != first.pos,
        ) {
            (true, true, true, true, true) => 100,
            (true, true, true, true, false) => 100,
            (true, true, true, false, true) => 100,
            (true, true, false, true, true) => 100,
            _ => 0,
        };
        proof {
            lemma_fits_mono(t2, n, 200 * n, 6000, n, 200 * n, 0);
        }
        proof {
            lemma_log_room(result.tally(), 15 as int, penalty_trigram as int, *count as int);
        }
        log_penalty(15, penalty_trigram, count, result);
        proof {
            lemma_log_fits(t2, 15, penalty_trigram as int, n, 0, 0, 6000);
        }
        let ghost t3 = result.tally();
        proof {
            lemma_fits_mono(t3, 0, 0, 6000, 0, 0, 3000);
        }
        let sum = penalty_reversal + penalty_twist + penalty_trigram;
        bump_three(first, second, third, sum, result);
    }
}

/// Charges `penalty` to each of three keys.
fn bump_three(first: &KeyPress, second: &KeyPress, third: &KeyPress, penalty: i64, result: &mut Penalty)
    requires
        first.pos < NUM_OF_KEYS,
        second.pos < NUM_OF_KEYS,
        third.pos < NUM_OF_KEYS,
        -1000 <= penalty <= 1000,
        fits(old(result).tally(), 0, 0, 3000),
    ensures
        final(result).penalties == old(result).penalties,
        final(result).tally() == bump3(old(result).tally(), *first, *second, *third, penalty as int),
{
    reveal(bump3);
    let ghost t0 = result.tally();
    proof {
        lemma_fits_mono(t0, 0, 0, 3000, 0, 0, 1000);
    }
    update_position_penalty(first, penalty, result);
    proof {
        lemma_bump_fits(t0, first.pos as int, penalty as int, 0, 0, 2000);
    }
    let ghost t1 = result.tally();
    proof {
        lemma_fits_mono(t1, 0, 0, 2000, 0, 0, 1000);
    }
    update_position_penalty(second, penalty, result);
    proof {
        lemma_bump_fits(t1, second.pos as int, penalty as int, 0, 0, 1000);
    }
    update_position_penalty(third, penalty, result);
}

/// The rules for a whole trigram: roll reversal, twist and same-finger
/// trigram within one hand, and the long-jump sandwich.
pub fn evaluate_trigram_penalties(
    first: &KeyPress,
    second: &KeyPress,
    third: &KeyPress,
    count: &usize,
    result: &mut Penalty,
)
    requires
        old(result).wf(),
        first.pos < NUM_OF_KEYS,
        second.pos < NUM_OF_KEYS,
        third.pos < NUM_OF_KEYS,
        fits(old(result).tally(), 4 * *count, 800 * *count, 9000),
    ensures
        final(result).wf(),
        final(result).same_labels(old(result)),
        final(result).tally() == trigram_step(old(result).tally(), *first, *second, *third, *count as int),
{
    let ghost n = *count as int;
    let ghost t0 = result.tally();
    proof {
        lemma_fits_mono(t0, 4 * n, 800 * n, 9000, 3 * n, 600 * n, 6000);
    }
    evaluate_hand_trigram(first, second, third, count, result);
    let ghost t1 = result.tally();
    proof {
        lemma_fits_mono(t0, 4 * n, 800 * n, 9000, 4 * n, 800 * n, 6000);
        lemma_hand_trigram_fits(t0, *first, *second, *third, n, n, 200 * n, 3000);
        lemma_fits_mono(t1, n, 200 * n, 3000, n, 200 * n, 0);
    }
    let penalty_sandwich: i64 = match (
        third.hand == first.hand,
        third.finger == first.finger,
        third.row.index() > first.row.index(),
        third.row.index() < first.row.index(),
        third.row.difference(first.row) > 1,
    ) {
        (true, true, true, false, true) => 30,
        (true, true, false, true, true) => 30,
        _ => 0,
    };
    proof {
        lemma_log_room(result.tally(), 11 as int, penalty_sandwich as int, *count as int);
    }
    log_penalty(11, penalty_sandwich, count, result);
    proof {
        lemma_log_fits(t1, 11, penalty_sandwich as int, n, 0, 0, 3000);
    }
    let ghost t2 = result.tally();
    bump_three(first, second, third, penalty_sandwich, result);
    proof {
        assert(result.same_labels(old(result)));
    }
}


/// Everything that typing the trigram `old2 old1 curr`, `count` times, adds
/// to `result`.
fn penalize_trigram(old2: &KeyPress, old1: &KeyPress, curr: &KeyPress, count: &usize, result: &mut Penalty)
    requires
        old(result).wf(),
        old2.pos < NUM_OF_KEYS,
        old1.pos < NUM_OF_KEYS,
        curr.pos < NUM_OF_KEYS,
        fits(old(result).tally(), 32 * *count, 4600 * *count, 44000),
    ensures
        final(result).wf(),
        final(result).same_labels(old(result)),
        final(result).tally() == add_trigram(old(result).tally(), *old2, *old1, *curr, *count as int),
{
    let ghost n = *count as int;
    let ghost t = result.tally();
    proof {
        reveal(fits);
    }
    result.len = result.len + *count;
    result.len = result.len + *count;
    result.len = result.len + *count;
    let ghost t0 = result.tally();
    proof {
        assert(t0.times =~= t.times);
        assert(t0.totals =~= t.totals);
        assert(t0.pos =~= t.pos);
        assert(t0.pos_pen =~= t.pos_pen);
        assert(t0.fingers =~= t.fingers);
        assert(t0.hands =~= t.hands);
        assert(t0 == Tally { len: t.len + 3 * n, ..t });
        assert(fits(t0, 29 * n, 4600 * n, 44000));
        lemma_fits_mono(t0, 29 * n, 4600 * n, 44000, n, 0, 0);
    }
    update_hand(old2, count, result);
    proof {
        lemma_hand_step_fits(t0, *old2, n, 28 * n, 4600 * n, 44000);
        lemma_fits_mono(result.tally(), 28 * n, 4600 * n, 44000, n, 0, 0);
    }
    let ghost t1 = result.tally();
    update_hand(old1, count, result);
    proof {
        lemma_hand_step_fits(t1, *old1, n, 27 * n, 4600 * n, 44000);
        lemma_fits_mono(result.tally(), 27 * n, 4600 * n, 44000, n, 0, 0);
    }
    let ghost t2 = result.tally();
    update_hand(curr, count, result);
    proof {
        lemma_hand_step_fits(t2, *curr, n, 26 * n, 4600 * n, 44000);
        lemma_fits_mono(result.tally(), 26 * n, 4600 * n, 44000, n, 0, 0);
    }
    let ghost t3 = result.tally();
    update_position(old2, count, result);
    proof {
        lemma_position_step_fits(t3, *old2, n, 25 * n, 4600 * n, 44000);
        lemma_fits_mono(result.tally(), 25 * n, 4600 * n, 44000, n, 0, 0);
    }
    let ghost t4 = result.tally();
    update_position(old1, count, result);
    proof {
        lemma_position_step_fits(t4, *old1, n, 24 * n, 4600 * n, 44000);
        lemma_fits_mono(result.tally(), 24 * n, 4600 * n, 44000, n, 0, 0);
    }
    let ghost t5 = result.tally();
    update_position(curr, count, result);
    proof {
        lemma_position_step_fits(t5, *curr, n, 23 * n, 4600 * n, 44000);
    }
    let ghost t6 = result.tally();
    penalize_keys(old2, old1, curr, count, result);
}

/// The base penalties and the pair and trigram rules of a trigram.
fn penalize_keys(old2: &KeyPress, old1: &KeyPress, curr: &KeyPress, count: &usize, result: &mut Penalty)
    requires
        old(result).wf(),
        old2.pos < NUM_OF_KEYS,
        old1.pos < NUM_OF_KEYS,
        curr.pos < NUM_OF_KEYS,
        fits(old(result).tally(), 23 * *count, 4600 * *count, 44000),
    ensures
        final(result).wf(),
        final(result).same_labels(old(result)),
        final(result).tally() == trigram_step(
            different_hand_step(
                different_hand_step(
                    same_hand_step(
                        same_hand_step(
                            base_step(
                                base_step(base_step(old(result).tally(), *old2, *count as int), *old1, *count as int),
                                *curr,
                                *count as int,
                            ),
                            *old2,
                            *old1,
                            *count as int,
                        ),
                        *old1,
                        *curr,
                        *count as int,
                    ),
                    *old2,
                    *old1,
                    *count as int,
                ),
                *old1,
                *curr,
                *count as int,
            ),
            *old2,
            *old1,
            *curr,
            *count as int,
        ),
{
    let ghost n = *count as int;
    let ghost t0 = result.tally();
    proof {
        lemma_fits_mono(t0, 23 * n, 4600 * n, 44000, n, 200 * n, 1000);
    }
    log_base_penalty(old2, count, result);
    let ghost t1 = result.tally();
    proof {
        lemma_base_fits(t0, *old2, n, 22 * n, 4400 * n, 43000);
        lemma_fits_mono(t1, 22 * n, 4400 * n, 43000, n, 200 * n, 1000);
    }
    log_base_penalty(old1, count, result);
    let ghost t2 = result.tally();
    proof {
        lemma_base_fits(t1, *old1, n, 21 * n, 4200 * n, 42000);
        lemma_fits_mono(t2, 21 * n, 4200 * n, 42000, n, 200 * n, 1000);
    }
    log_base_penalty(curr, count, result);
    let ghost t3 = result.tally();
    proof {
        lemma_base_fits(t2, *curr, n, 20 * n, 4000 * n, 41000);
        lemma_fits_mono(t3, 20 * n, 4000 * n, 41000, 7 * n, 1400 * n, 14000);
    }
    evaluate_same_hand_penalties(old2, old1, count, result);
    let ghost t4 = result.tally();
    proof {
        lemma_same_hand_fits(t3, *old2, *old1, n, 13 * n, 2600 * n, 27000);
        lemma_fits_mono(t4, 13 * n, 2600 * n, 27000, 7 * n, 1400 * n, 14000);
    }
    evaluate_same_hand_penalties(old1, curr, count, result);
    let ghost t5 = result.tally();
    proof {
        lemma_same_hand_fits(t4, *old1, *curr, n, 6 * n, 1200 * n, 13000);
        lemma_fits_mono(t5, 6 * n, 1200 * n, 13000, n, 200 * n, 2000);
    }
    evaluate_different_hand_penalties(old2, old1, count, result);
    let ghost t6 = result.tally();
    proof {
        lemma_different_hand_fits(t5, *old2, *old1, n, 5 * n, 1000 * n, 11000);
        lemma_fits_mono(t6, 5 * n, 1000 * n, 11000, n, 200 * n, 2000);
    }
    evaluate_different_hand_penalties(old1, curr, count, result);
    let ghost t7 = result.tally();
    proof {
        lemma_different_hand_fits(t6, *old1, *curr, n, 4 * n, 800 * n, 9000);
    }
    evaluate_trigram_penalties(old2, old1, curr, count, result);
}


/// The weight of a prefix never exceeds the weight of the whole list.
pub proof fn lemma_weight_prefix(entries: Seq<(Vec<char>, usize)>, k: int)
    requires
        0 <= k <= entries.len(),
    ensures
        0 <= weight(entries.take(k)) <= weight(entries),
    decreases entries.len(),
{
    if k < entries.len() {
        assert(entries.drop_last().take(k) =~= entries.take(k));
        lemma_weight_prefix(entries.drop_last(), k);
    } else {
        assert(entries.take(k) =~= entries);
        lemma_weight_nonneg(entries);
    }
}

pub proof fn lemma_weight_nonneg(entries: Seq<(Vec<char>, usize)>)
    ensures
        0 <= weight(entries),
    decreases entries.len(),
{
    if entries.len() > 0 {
        lemma_weight_nonneg(entries.drop_last());
    }
}

/// The penalty of typing every (trigram, count) entry on `layout`: each
/// trigram is typed `count` times.
pub fn calculate_penalty(quartads: &Vec<(Vec<char>, usize)>, layout: &Layout) -> (r: BestLayoutsEntry)
    requires
        typeable(quartads@, *layout),
        32 * weight(quartads@) <= usize::MAX,
        4600 * weight(quartads@) <= i64::MAX,
        44000 * quartads@.len() <= i64::MAX,
    ensures
        r.layout == *layout,
        r.penalty.wf(),
        r.penalty.tally() == tally_of(quartads@, *layout),
        forall|i: int|
            0 <= i < NUM_PENALTIES ==> #[trigger] r.penalty.penalties@[i].name@ == penalty_names()[i]
                && r.penalty.penalties@[i].show == penalty_shows()[i],
{
    let mut result = Penalty::new();
    let ghost labels = result.labels();
    let ghost r0 = result;
    let position_map = layout.get_position_map();
    let ghost w = weight(quartads@);
    let ghost e = quartads@.len() as int;
    proof {
        reveal(fits);
        assert(quartads@.take(0) =~= Seq::<(Vec<char>, usize)>::empty());
        lemma_weight_nonneg(quartads@);
        assert(result.tally() == empty_tally());
        assert(fits(empty_tally(), 32 * w, 4600 * w, 44000 * e));
    }
    let mut i: usize = 0;
    while i < quartads.len()
        invariant
            i <= quartads@.len(),
            typeable(quartads@, *layout),
            w == weight(quartads@),
            e == quartads@.len(),
            forall|c: char| #[trigger] position_map.lookup(c) == key_position(*layout, c),
            result.wf(),
            result.labels() == labels,
            result.tally() == tally_of(quartads@.take(i as int), *layout),
            fits(
                result.tally(),
                32 * (w - weight(quartads@.take(i as int))),
                4600 * (w - weight(quartads@.take(i as int))),
                44000 * (e - i),
            ),
        decreases quartads@.len() - i,
    {
        let entry = &quartads[i];
        let string = &entry.0;
        let count = &entry.1;
        proof {
            assert(quartads@[i as int].0@.len() >= 3);
            lemma_key_position_carries(*layout, string@[0]);
            lemma_key_position_carries(*layout, string@[1]);
            lemma_key_position_carries(*layout, string@[2]);
        }
        let old2 = position_map.get_key_position(string[0]).unwrap();
        let old1 = position_map.get_key_position(string[1]).unwrap();
        let curr = position_map.get_key_position(string[2]).unwrap();
        let ghost before = result.tally();
        proof {
            let prefix = quartads@.take(i as int);
            let next = quartads@.take(i + 1);
            assert(next.drop_last() =~= prefix);
            assert(next.last() == quartads@[i as int]);
            lemma_weight_prefix(quartads@, i + 1);
            let n = *count as int;
            assert(weight(next) == weight(prefix) + n);
            lemma_fits_mono(
                before,
                32 * (w - weight(prefix)),
                4600 * (w - weight(prefix)),
                44000 * (e - i),
                32 * n,
                4600 * n,
                44000,
            );
        }
        penalize_trigram(&old2, &old1, &curr, count, &mut result);
        proof {
            let prefix = quartads@.take(i as int);
            let next = quartads@.take(i + 1);
            let n = *count as int;
            assert(next.drop_last() =~= prefix);
            lemma_add_trigram_fits(
                before,
                old2,
                old1,
                curr,
                n,
                32 * (w - weight(next)),
                4600 * (w - weight(next)),
                44000 * (e - i - 1),
            );
        }
        i = i + 1;
    }
    proof {
        assert(quartads@.take(quartads@.len() as int) =~= quartads@);
        assert forall|k: int| 0 <= k < NUM_PENALTIES implies #[trigger] result.penalties@[k].name@
            == penalty_names()[k] && result.penalties@[k].show == penalty_shows()[k] by {
            assert(result.labels()[k] == labels[k]);
            assert(labels[k] == (r0.penalties@[k].name, r0.penalties@[k].show));
            assert(r0.penalties@[k].name@ == penalty_names()[k]);
        }
    }
    BestLayoutsEntry { layout: *layout, penalty: result }
}


/// An outward roll from `prev` to `curr` (towards the pinky).
pub open spec fn spec_roll_out(prev: Finger, curr: Finger) -> bool {
    match curr {
        Finger::Middle => prev == Finger::Index,
        Finger::Ring => prev != Finger::Pinky && prev != Finger::Ring && prev != Finger::Thumb,
        Finger::Pinky => prev != Finger::Pinky && prev != Finger::Thumb,
        _ => false,
    }
}

/// A comfortable inward roll from `prev` to `curr` (only onto the index or middle finger).
pub open spec fn spec_roll_in(prev: Finger, curr: Finger) -> bool {
    match curr {
        Finger::Index => prev != Finger::Thumb && prev != Finger::Index,
        Finger::Middle => prev == Finger::Pinky || prev == Finger::Ring,
        _ => false,
    }
}

/// Any outward roll, counting thumbs as innermost.
pub open spec fn spec_roll_out2(prev: Finger, curr: Finger) -> bool {
    match curr {
        Finger::Thumb => false,
        Finger::ThumbBottom => false,
        Finger::Index => prev == Finger::Thumb,
        Finger::Middle => prev == Finger::Thumb || prev == Finger::Index,
        Finger::Ring => prev != Finger::Pinky && prev != Finger::Ring,
        Finger::Pinky => prev != Finger::Pinky,
    }
}

/// Any inward roll.
pub open spec fn spec_roll_in2(prev: Finger, curr: Finger) -> bool {
    match curr {
        Finger::Thumb => prev != Finger::Thumb,
        Finger::ThumbBottom => prev != Finger::ThumbBottom,
        Finger::Index => prev != Finger::Thumb && prev != Finger::Index,
        Finger::Middle => prev == Finger::Pinky || prev == Finger::Ring,
        Finger::Ring => prev == Finger::Pinky,
        Finger::Pinky => false,
    }
}

pub fn is_roll_out(prev: Finger, curr: Finger) -> (r: bool)
    ensures
        r == spec_roll_out(prev, curr),
{
    match curr {
        Finger::Middle => prev == Finger::Index,
        Finger::Ring => prev != Finger::Pinky && prev != Finger::Ring && prev != Finger::Thumb,
        Finger::Pinky => prev != Finger::Pinky && prev != Finger::Thumb,
        _ => false,
    }
}

/// Restricted roll-in: not every inward roll is comfortable.
pub fn is_roll_in(prev: Finger, curr: Finger) -> (r: bool)
    ensures
        r == spec_roll_in(prev, curr),
{
    match curr {
        Finger::Index => prev != Finger::Thumb && prev != Finger::Index,
        Finger::Middle => prev == Finger::Pinky || prev == Finger::Ring,
        _ => false,
    }
}

pub fn is_roll_out2(prev: Finger, curr: Finger) -> (r: bool)
    ensures
        r == spec_roll_out2(prev, curr),
{
    match curr {
        Finger::Thumb => false,
        Finger::ThumbBottom => false,
        Finger::Index => prev == Finger::Thumb,
        Finger::Middle => prev == Finger::Thumb || prev == Finger::Index,
        Finger::Ring => prev != Finger::Pinky && prev != Finger::Ring,
        Finger::Pinky => prev != Finger::Pinky,
    }
}

/// All roll-ins.
pub fn is_roll_in2(prev: Finger, curr: Finger) -> (r: bool)
    ensures
        r == spec_roll_in2(prev, curr),
{
    match curr {
        Finger::Thumb => prev != Finger::Thumb,
        Finger::ThumbBottom => prev != Finger::ThumbBottom,
        Finger::Index => prev != Finger::Thumb && prev != Finger::Index,
        Finger::Middle => prev == Finger::Pinky || prev == Finger::Ring,
        Finger::Ring => prev == Finger::Pinky,
        Finger::Pinky => false,
    }
}

/// A finger never rolls onto itself, and the restricted roll-in is a roll-in.
pub proof fn lemma_roll_laws(prev: Finger, curr: Finger)
    ensures
        !spec_roll_out(curr, curr),
        !spec_roll_in(curr, curr),
        !spec_roll_out2(curr, curr),
        spec_roll_in(prev, curr) ==> spec_roll_in2(prev, curr),
        spec_roll_out(prev, curr) ==> spec_roll_out2(prev, curr),
        !(spec_roll_out2(prev, curr) && spec_roll_in2(prev, curr)),
{
}


/* ------------------------------------------------------------------ *
 * Laws                                                               *
 * ------------------------------------------------------------------ */

/// Sum of a sequence of integers.
pub open spec fn seq_sum(s: Seq<int>) -> int
    decreases s.len(),
{
    if s.len() == 0 {
        0
    } else {
        seq_sum(s.drop_last()) + s.last()
    }
}

pub proof fn lemma_seq_sum_update(s: Seq<int>, i: int, v: int)
    requires
        0 <= i < s.len(),
    ensures
        seq_sum(s.update(i, v)) == seq_sum(s) - s[i] + v,
    decreases s.len(),
{
    if i < s.len() - 1 {
        assert(s.update(i, v).drop_last() =~= s.drop_last().update(i, v));
        lemma_seq_sum_update(s.drop_last(), i, v);
    } else {
        assert(s.update(i, v).drop_last() =~= s.drop_last());
    }
}

pub proof fn lemma_seq_sum_zeros(n: nat)
    ensures
        seq_sum(Seq::new(n, |i: int| 0int)) == 0,
    decreases n,
{
    if n > 0 {
        assert(Seq::new(n, |i: int| 0int).drop_last() =~= Seq::new((n - 1) as nat, |i: int| 0int));
        lemma_seq_sum_zeros((n - 1) as nat);
    }
}

/// `t2` has the same counter sums as `t1`, and its total still differs from
/// the sum of its category totals by the same amount.
pub open spec fn same_sums(t1: Tally, t2: Tally) -> bool {
    &&& tally_wf(t2)
    &&& seq_sum(t2.totals) - t2.total == seq_sum(t1.totals) - t1.total
    &&& seq_sum(t2.hands) == seq_sum(t1.hands)
    &&& seq_sum(t2.fingers) == seq_sum(t1.fingers)
    &&& seq_sum(t2.pos) == seq_sum(t1.pos)
    &&& t2.len == t1.len
}

proof fn lemma_log_sums(t: Tally, i: int, p: int, n: int)
    requires
        tally_wf(t),
        0 <= i < NUM_PENALTIES,
    ensures
        same_sums(t, log(t, i, p, n)),
{
    reveal(log);
    if p != 0 {
        lemma_seq_sum_update(t.totals, i, t.totals[i] + p * n);
    }
}

proof fn lemma_bump_sums(t: Tally, pos: int, p: int)
    requires
        tally_wf(t),
        0 <= pos < NUM_OF_KEYS,
    ensures
        same_sums(t, bump(t, pos, p)),
{
    reveal(bump);
}

proof fn lemma_pair_sums(t: Tally, i: int, p: int, prev: KeyPress, curr: KeyPress, n: int)
    requires
        tally_wf(t),
        0 <= i < NUM_PENALTIES,
        prev.pos < NUM_OF_KEYS,
        curr.pos < NUM_OF_KEYS,
    ensures
        same_sums(t, pair_step(t, i, p, prev, curr, n)),
{
    reveal(pair_step);
    lemma_log_sums(t, i, p, n);
    let t1 = log(t, i, p, n);
    lemma_bump_sums(t1, prev.pos as int, p);
    lemma_bump_sums(bump(t1, prev.pos as int, p), curr.pos as int, p);
}

proof fn lemma_bump3_sums(t: Tally, a: KeyPress, b: KeyPress, c: KeyPress, p: int)
    requires
        tally_wf(t),
        a.pos < NUM_OF_KEYS,
        b.pos < NUM_OF_KEYS,
        c.pos < NUM_OF_KEYS,
    ensures
        same_sums(t, bump3(t, a, b, c, p)),
{
    reveal(bump3);
    lemma_bump_sums(t, a.pos as int, p);
    let t1 = bump(t, a.pos as int, p);
    lemma_bump_sums(t1, b.pos as int, p);
    lemma_bump_sums(bump(t1, b.pos as int, p), c.pos as int, p);
}

proof fn lemma_rules_sums(t: Tally, a: KeyPress, b: KeyPress, c: KeyPress, n: int)
    requires
        tally_wf(t),
        a.pos < NUM_OF_KEYS,
        b.pos < NUM_OF_KEYS,
        c.pos < NUM_OF_KEYS,
    ensures
        same_sums(t, base_step(t, a, n)),
        same_sums(t, same_hand_step(t, a, b, n)),
        same_sums(t, different_hand_step(t, a, b, n)),
        same_sums(t, trigram_step(t, a, b, c, n)),
{
    reveal(base_step);
    let pa = base_penalties()[a.pos as int];
    lemma_log_sums(t, 0, pa, n);
    lemma_bump_sums(log(t, 0, pa, n), a.pos as int, pa);
    if a.hand == b.hand {
        lemma_pair_sums(t, 1, same_finger_penalty(a, b), a, b, n);
        let t1 = pair_step(t, 1, same_finger_penalty(a, b), a, b, n);
        lemma_pair_sums(t1, 2, long_jump_hand_penalty(a, b), a, b, n);
        let t2 = pair_step(t1, 2, long_jump_hand_penalty(a, b), a, b, n);
        lemma_pair_sums(t2, 3, long_jump_penalty(a, b), a, b, n);
        let t3 = pair_step(t2, 3, long_jump_penalty(a, b), a, b, n);
        lemma_pair_sums(t3, 4, long_jump_consecutive_penalty(a, b), a, b, n);
        let t4 = pair_step(t3, 4, long_jump_consecutive_penalty(a, b), a, b, n);
        lemma_pair_sums(t4, 5, pinky_ring_twist_penalty(a, b), a, b, n);
        let t5 = pair_step(t4, 5, pinky_ring_twist_penalty(a, b), a, b, n);
        lemma_pair_sums(t5, 9, roll_out_penalty(a, b), a, b, n);
        let t6 = pair_step(t5, 9, roll_out_penalty(a, b), a, b, n);
        lemma_pair_sums(t6, 10, roll_in_penalty(a, b), a, b, n);
    } else {
        lemma_pair_sums(t, 8, alternation_penalty(), a, b, n);
    }
    let h = hand_trigram_step(t, a, b, c, n);
    if a.hand == b.hand && b.hand == c.hand {
        let rev = roll_reversal_penalty(a, b, c);
        let tw = twist_penalty(a, b, c);
        let sf = same_finger_trigram_penalty(a, b, c);
        lemma_log_sums(t, 6, rev, n);
        let l1 = log(t, 6, rev, n);
        lemma_log_sums(l1, 12, tw, n);
        let l2 = log(l1, 12, tw, n);
        lemma_log_sums(l2, 15, sf, n);
        lemma_bump3_sums(log(l2, 15, sf, n), a, b, c, rev + tw + sf);
    }
    let sw = sandwich_penalty(a, b, c);
    lemma_log_sums(h, 11, sw, n);
    lemma_bump3_sums(log(h, 11, sw, n), a, b, c, sw);
}

proof fn lemma_add_trigram_sums(t: Tally, a: KeyPress, b: KeyPress, c: KeyPress, n: int)
    requires
        tally_wf(t),
        a.pos < NUM_OF_KEYS,
        b.pos < NUM_OF_KEYS,
        c.pos < NUM_OF_KEYS,
    ensures
        ({
            let t2 = add_trigram(t, a, b, c, n);
            &&& tally_wf(t2)
            &&& seq_sum(t2.totals) - t2.total == seq_sum(t.totals) - t.total
            &&& seq_sum(t2.hands) == seq_sum(t.hands) + 3 * n
            &&& seq_sum(t2.fingers) == seq_sum(t.fingers) + 3 * n
            &&& seq_sum(t2.pos) == seq_sum(t.pos) + 3 * n
            &&& t2.len == t.len + 3 * n
        }),
{
    reveal(hand_step);
    reveal(position_step);
    let t0 = Tally { len: t.len + 3 * n, ..t };
    let mut u = t0;
    let ghost keys = seq![a, b, c];
    let h1 = hand_step(t0, a, n);
    let h2 = hand_step(h1, b, n);
    let h3 = hand_step(h2, c, n);
    assert forall|x: Tally, k: KeyPress| tally_wf(x) implies #[trigger] seq_sum(hand_step(x, k, n).hands)
        == seq_sum(x.hands) + n && seq_sum(hand_step(x, k, n).fingers) == seq_sum(x.fingers) + n
        && tally_wf(hand_step(x, k, n)) by {
        let hi = if k.hand == Hand::Left { 0int } else { 1int };
        let f = hand_offset(k.hand) + finger_slot(k.finger);
        lemma_seq_sum_update(x.hands, hi, x.hands[hi] + n);
        lemma_seq_sum_update(x.fingers, f, x.fingers[f] + n);
    }
    assert forall|x: Tally, k: KeyPress| tally_wf(x) && k.pos < NUM_OF_KEYS implies #[trigger] seq_sum(
        position_step(x, k, n).pos,
    ) == seq_sum(x.pos) + n && tally_wf(position_step(x, k, n)) by {
        lemma_seq_sum_update(x.pos, k.pos as int, x.pos[k.pos as int] + n);
    }
    let p1 = position_step(h3, a, n);
    let p2 = position_step(p1, b, n);
    let t2 = position_step(p2, c, n);
    lemma_rules_sums(t2, a, b, c, n);
    let b1 = base_step(t2, a, n);
    lemma_rules_sums(b1, b, c, a, n);
    let b2 = base_step(b1, b, n);
    lemma_rules_sums(b2, c, a, b, n);
    let t3 = base_step(b2, c, n);
    lemma_rules_sums(t3, a, b, c, n);
    let s1 = same_hand_step(t3, a, b, n);
    lemma_rules_sums(s1, b, c, a, n);
    let t4 = same_hand_step(s1, b, c, n);
    lemma_rules_sums(t4, a, b, c, n);
    let d1 = different_hand_step(t4, a, b, n);
    lemma_rules_sums(d1, b, c, a, n);
    let t5 = different_hand_step(d1, b, c, n);
    lemma_rules_sums(t5, a, b, c, n);
}

/// Every trigram is three key presses: the presses number three times the
/// total count of the entries, and they split exactly over the two hands,
/// over the ten finger counters and over the keys. The total penalty is the
/// sum of the per-category totals.
pub proof fn lemma_tally_consistent(entries: Seq<(Vec<char>, usize)>, layout: Layout)
    requires
        typeable(entries, layout),
    ensures
        ({
            let t = tally_of(entries, layout);
            &&& tally_wf(t)
            &&& t.len == 3 * weight(entries)
            &&& seq_sum(t.hands) == t.len
            &&& seq_sum(t.fingers) == t.len
            &&& seq_sum(t.pos) == t.len
            &&& seq_sum(t.totals) == t.total
        }),
    decreases entries.len(),
{
    if entries.len() == 0 {
        lemma_seq_sum_zeros(NUM_PENALTIES as nat);
        lemma_seq_sum_zeros(NUM_OF_KEYS as nat);
        lemma_seq_sum_zeros(10);
        lemma_seq_sum_zeros(2);
    } else {
        let rest = entries.drop_last();
        assert(typeable(rest, layout)) by {
            assert forall|i: int| 0 <= i < rest.len() implies #[trigger] rest[i].0@.len() >= 3 && key_position(layout, rest[i].0@[0]) is Some && key_position(layout, rest[i].0@[1]) is Some && key_position(layout, rest[i].0@[2]) is Some by {
                assert(rest[i] == entries[i]);
            }
        }
        lemma_tally_consistent(rest, layout);
        let e = entries.last();
        assert(entries[entries.len() - 1] == e);
        assert(entries[entries.len() - 1].0@.len() >= 3);
        lemma_key_position_carries(layout, e.0@[0]);
        lemma_key_position_carries(layout, e.0@[1]);
        lemma_key_position_carries(layout, e.0@[2]);
        lemma_add_trigram_sums(
            tally_of(rest, layout),
            entry_key(layout, e, 0),
            entry_key(layout, e, 1),
            entry_key(layout, e, 2),
            e.1 as int,
        );
    }
}

/* ------------------------------------------------------------------ *
 * Checked evaluation                                                 *
 * ------------------------------------------------------------------ */

/// The conditions under which `calculate_penalty` runs: every entry can be
/// typed on the layout, and the counts leave room in the counters.
pub open spec fn penalty_computable(entries: Seq<(Vec<char>, usize)>, layout: Layout) -> bool {
    &&& typeable(entries, layout)
    &&& 32 * weight(entries) <= usize::MAX
    &&& 4600 * weight(entries) <= i64::MAX
    &&& 44000 * entries.len() <= i64::MAX
}

/// The penalty of the entries on the layout (see `calculate_penalty`); `None`
/// when an entry is shorter than three characters or holds a character that
/// is not on the layout, or when the counts leave no room in the counters.
pub fn penalty_if_typeable(quartads: &Vec<(Vec<char>, usize)>, layout: &Layout) -> (r: Option<BestLayoutsEntry>)
    ensures
        r is Some <==> penalty_computable(quartads@, *layout),
        r matches Some(e) ==> e.layout == *layout && e.penalty.wf() && e.penalty.tally() == tally_of(quartads@, *layout),
{
    let map = layout.get_position_map();
    let ghost q = quartads@;
    let mut w: u128 = 0;
    let mut i: usize = 0;
    while i < quartads.len()
        invariant
            i <= q.len(),
            q == quartads@,
            forall|c: char| #[trigger] map.lookup(c) == key_position(*layout, c),
            w == weight(q.take(i as int)),
            w <= 2005080877577125u128,
            forall|j: int|
                0 <= j < i ==> {
                    &&& #[trigger] q[j].0@.len() >= 3
                    &&& key_position(*layout, q[j].0@[0]) is Some
                    &&& key_position(*layout, q[j].0@[1]) is Some
                    &&& key_position(*layout, q[j].0@[2]) is Some
                },
        decreases q.len() - i,
    {
        let entry = &quartads[i];
        if entry.0.len() < 3 || map.get_key_position(entry.0[0]).is_none() || map.get_key_position(entry.0[1]).is_none()
            || map.get_key_position(entry.0[2]).is_none() {
            proof {
                assert(!typeable(q, *layout)) by {
                    assert(q[i as int] == *entry);
                }
            }
            return None;
        }
        proof {
            assert(q.take(i + 1).drop_last() =~= q.take(i as int));
            assert(q.take(i + 1).last() == q[i as int]);
            assert(q[i as int] == *entry);
            assert forall|j: int|
                0 <= j < i + 1 implies {
                    &&& #[trigger] q[j].0@.len() >= 3
                    &&& key_position(*layout, q[j].0@[0]) is Some
                    &&& key_position(*layout, q[j].0@[1]) is Some
                    &&& key_position(*layout, q[j].0@[2]) is Some
                } by {
                if j == i {
                    assert(map.lookup(entry.0@[0]) == key_position(*layout, entry.0@[0]));
                    assert(map.lookup(entry.0@[1]) == key_position(*layout, entry.0@[1]));
                    assert(map.lookup(entry.0@[2]) == key_position(*layout, entry.0@[2]));
                }
            }
        }
        w = w + entry.1 as u128;
        if w > 2005080877577125u128 {
            proof {
                lemma_weight_prefix(q, i + 1);
            }
            return None;
        }
        i += 1;
    }
    proof {
        assert(q.take(i as int) =~= q);
    }
    if 32 * w > usize::MAX as u128 || quartads.len() as u128 > 209622091746699u128 {
        return None;
    }
    Some(calculate_penalty(quartads, layout))
}

/// The layout that `from_lower_string` reads from `s`.
pub open spec fn lower_string_layout(s: Seq<char>, layout: Layout) -> bool {
    &&& layout.0@ == Seq::new(NUM_OF_KEYS as nat, |i: int| crate::layout::char_or_nul(s, i))
    &&& layout.1@ == Seq::new(
        NUM_OF_KEYS as nat,
        |i: int|
            if i < s.len() {
                crate::text::uppercase_first(s[i])
            } else {
                '\0'
            },
    )
}

/// The penalty of each layout written as text (see `Layout::from_lower_string`)
/// for the entries, in order; `None` when the entries cannot be evaluated on
/// one of them (see `penalty_if_typeable`).
pub fn evaluate_layout_strings(quartads: &Vec<(Vec<char>, usize)>, layouts: &[String]) -> (r: Option<Vec<BestLayoutsEntry>>)
    ensures
        r matches Some(v) ==> v@.len() == layouts@.len() && forall|i: int|
            0 <= i < v@.len() ==> {
                &&& lower_string_layout(layouts@[i]@, #[trigger] v@[i].layout)
                &&& penalty_computable(quartads@, v@[i].layout)
                &&& v@[i].penalty.tally() == tally_of(quartads@, v@[i].layout)
            },
        r is None ==> exists|i: int, layout: Layout|
            0 <= i < layouts@.len() && lower_string_layout(layouts@[i]@, layout) && !penalty_computable(quartads@, layout),
{
    let mut r: Vec<BestLayoutsEntry> = Vec::new();
    let mut i: usize = 0;
    while i < layouts.len()
        invariant
            i <= layouts@.len(),
            r@.len() == i,
            forall|j: int|
                0 <= j < i ==> {
                    &&& lower_string_layout(layouts@[j]@, #[trigger] r@[j].layout)
                    &&& penalty_computable(quartads@, r@[j].layout)
                    &&& r@[j].penalty.tally() == tally_of(quartads@, r@[j].layout)
                },
        decreases layouts@.len() - i,
    {
        let layout = Layout::from_lower_string(layouts[i].as_str());
        match penalty_if_typeable(quartads, &layout) {
            Some(entry) => {
                r.push(entry);
            },
            None => {
                assert(lower_string_layout(layouts@[i as int]@, layout));
                return None;
            },
        }
        i += 1;
    }
    Some(r)
}

/* ------------------------------------------------------------------ *
 * Keeping the best layouts                                           *
 * ------------------------------------------------------------------ */

/// `s` (sorted by ascending total) with `x` put after every entry whose total
/// is no larger.
pub open spec fn insert_by_total(s: Seq<BestLayoutsEntry>, x: BestLayoutsEntry) -> Seq<BestLayoutsEntry>
    decreases s.len(),
{
    if s.len() == 0 || s.last().penalty.total <= x.penalty.total {
        s.push(x)
    } else {
        insert_by_total(s.drop_last(), x).push(s.last())
    }
}

/// `s` sorted by ascending total penalty, entries of equal total in their
/// order in `s`.
pub open spec fn sort_by_total(s: Seq<BestLayoutsEntry>) -> Seq<BestLayoutsEntry>
    decreases s.len(),
{
    if s.len() == 0 {
        seq![]
    } else {
        insert_by_total(sort_by_total(s.drop_last()), s.last())
    }
}

/// The first `count` entries of `s` sorted by total (all of them when there
/// are fewer).
pub open spec fn best_of(s: Seq<BestLayoutsEntry>, count: int) -> Seq<BestLayoutsEntry> {
    if count < s.len() {
        sort_by_total(s).take(count)
    } else {
        sort_by_total(s)
    }
}

proof fn lemma_insert_by_total_at(s: Seq<BestLayoutsEntry>, x: BestLayoutsEntry, j: int)
    requires
        0 <= j <= s.len(),
        forall|k: int| j <= k < s.len() ==> (#[trigger] s[k]).penalty.total > x.penalty.total,
        j == 0 || s[j - 1].penalty.total <= x.penalty.total,
    ensures
        insert_by_total(s, x) == s.insert(j, x),
    decreases s.len() - j,
{
    if j == s.len() {
        assert(s.push(x) =~= s.insert(j, x));
    } else {
        let t = s.drop_last();
        assert forall|k: int| j <= k < t.len() implies (#[trigger] t[k]).penalty.total > x.penalty.total by {
            assert(t[k] == s[k]);
        }
        if j > 0 {
            assert(t[j - 1] == s[j - 1]);
        }
        lemma_insert_by_total_at(t, x, j);
        assert(t.insert(j, x).push(s.last()) =~= s.insert(j, x));
    }
}

proof fn lemma_sort_by_total_len(s: Seq<BestLayoutsEntry>)
    ensures
        sort_by_total(s).len() == s.len(),
    decreases s.len(),
{
    if s.len() > 0 {
        lemma_sort_by_total_len(s.drop_last());
        lemma_insert_by_total_len(sort_by_total(s.drop_last()), s.last());
    }
}

proof fn lemma_insert_by_total_len(s: Seq<BestLayoutsEntry>, x: BestLayoutsEntry)
    ensures
        insert_by_total(s, x).len() == s.len() + 1,
    decreases s.len(),
{
    if s.len() > 0 && s.last().penalty.total > x.penalty.total {
        lemma_insert_by_total_len(s.drop_last(), x);
    }
}

/// The `count` entries with the lowest total penalty, lowest first (all of
/// them when there are fewer); entries of equal total keep their order.
pub fn best_entries(entries: Vec<BestLayoutsEntry>, count: usize) -> (r: Vec<BestLayoutsEntry>)
    ensures
        r@ == best_of(entries@, count as int),
{
    let ghost all = entries@;
    let mut input = entries;
    let mut r: Vec<BestLayoutsEntry> = Vec::new();
    let ghost mut done: int = 0;
    assert(all.take(0) =~= Seq::<BestLayoutsEntry>::empty());
    assert(all.skip(0) =~= all);
    while input.len() > 0
        invariant
            0 <= done <= all.len(),
            input@ == all.skip(done),
            r@ == sort_by_total(all.take(done)),
            r@.len() == done,
        decreases input@.len(),
    {
        let x = input.remove(0);
        let total = x.penalty.total;
        let mut j: usize = r.len();
        while j > 0 && r[j - 1].penalty.total > total
            invariant
                j <= r@.len(),
                total == x.penalty.total,
                forall|k: int| j <= k < r@.len() ==> (#[trigger] r@[k]).penalty.total > x.penalty.total,
            decreases j,
        {
            j -= 1;
        }
        proof {
            lemma_insert_by_total_at(r@, x, j as int);
            assert(all.take(done + 1).drop_last() =~= all.take(done));
            assert(all.take(done + 1).last() == x);
            assert(all.skip(done).drop_first() =~= all.skip(done + 1));
            lemma_insert_by_total_len(r@, x);
        }
        r.insert(j, x);
        proof {
            done = done + 1;
        }
    }
    proof {
        assert(all.take(done) =~= all);
        lemma_sort_by_total_len(all);
    }
    r.truncate(count);
    proof {
        if (count as int) < all.len() {
            assert(r@ =~= sort_by_total(all).take(count as int));
        }
    }
    r
}

/// The entries are in ascending order of total penalty.
pub open spec fn sorted_by_total(s: Seq<BestLayoutsEntry>) -> bool {
    forall|i: int, j: int| 0 <= i < j < s.len() ==> (#[trigger] s[i]).penalty.total <= (#[trigger] s[j]).penalty.total
}

proof fn lemma_insert_by_total_sorted(t: Seq<BestLayoutsEntry>, x: BestLayoutsEntry)
    requires
        sorted_by_total(t),
    ensures
        sorted_by_total(insert_by_total(t, x)),
        insert_by_total(t, x).to_multiset() == t.to_multiset().insert(x),
        forall|i: int|
            0 <= i < insert_by_total(t, x).len() ==> (#[trigger] insert_by_total(t, x)[i]) == x || t.contains(
                insert_by_total(t, x)[i],
            ),
    decreases t.len(),
{
    broadcast use vstd::seq_lib::group_to_multiset_ensures;
    if t.len() == 0 || t.last().penalty.total <= x.penalty.total {
        let r = t.push(x);
        assert forall|i: int| 0 <= i < r.len() implies (#[trigger] r[i]) == x || t.contains(r[i]) by {
            if i < t.len() {
                assert(r[i] == t[i]);
            }
        }
    } else {
        let u = t.drop_last();
        assert(sorted_by_total(u)) by {
            assert forall|i: int, j: int| 0 <= i < j < u.len() implies (#[trigger] u[i]).penalty.total <= (#[trigger] u[j]).penalty.total by {
                assert(u[i] == t[i] && u[j] == t[j]);
            }
        }
        lemma_insert_by_total_sorted(u, x);
        let v = insert_by_total(u, x);
        let r = v.push(t.last());
        assert(t =~= u.push(t.last()));
        assert forall|i: int| 0 <= i < v.len() implies (#[trigger] v[i]).penalty.total <= t.last().penalty.total by {
            if v[i] != x {
                assert(u.contains(v[i]));
                let k = choose|k: int| 0 <= k < u.len() && u[k] == v[i];
                assert(t[k] == u[k]);
            }
        }
        assert forall|i: int, j: int| 0 <= i < j < r.len() implies (#[trigger] r[i]).penalty.total <= (#[trigger] r[j]).penalty.total by {
            if j < v.len() {
                assert(r[i] == v[i] && r[j] == v[j]);
            } else {
                assert(r[i] == v[i]);
            }
        }
        assert forall|i: int| 0 <= i < r.len() implies (#[trigger] r[i]) == x || t.contains(r[i]) by {
            if i < v.len() {
                assert(r[i] == v[i]);
                if v[i] != x {
                    let k = choose|k: int| 0 <= k < u.len() && u[k] == v[i];
                    assert(t[k] == u[k]);
                }
            } else {
                assert(r[i] == t[t.len() - 1]);
            }
        }
    }
}

/// Sorting by total gives the entries in ascending order of total penalty,
/// each as often as in the input.
pub proof fn lemma_sort_by_total(s: Seq<BestLayoutsEntry>)
    ensures
        sorted_by_total(sort_by_total(s)),
        sort_by_total(s).to_multiset() == s.to_multiset(),
    decreases s.len(),
{
    broadcast use vstd::seq_lib::group_to_multiset_ensures;
    if s.len() > 0 {
        lemma_sort_by_total(s.drop_last());
        lemma_insert_by_total_sorted(sort_by_total(s.drop_last()), s.last());
        assert(s =~= s.drop_last().push(s.last()));
    } else {
        assert(sort_by_total(s) =~= s);
    }
}

/// The best entries come in ascending order of total, and no entry left out
/// has a lower total than an entry kept.
pub proof fn lemma_best_entries(s: Seq<BestLayoutsEntry>, count: int)
    requires
        0 <= count,
    ensures
        sorted_by_total(best_of(s, count)),
        forall|i: int, j: int|
            0 <= i < best_of(s, count).len() <= j < s.len() ==> (#[trigger] best_of(s, count)[i]).penalty.total
                <= (#[trigger] sort_by_total(s)[j]).penalty.total,
        best_of(s, count).len() == if count < s.len() { count } else { s.len() as int },
{
    lemma_sort_by_total(s);
    lemma_sort_by_total_len(s);
    let t = sort_by_total(s);
    if count < s.len() {
        assert forall|i: int, j: int| 0 <= i < j < best_of(s, count).len() implies (#[trigger] best_of(s, count)[i]).penalty.total
            <= (#[trigger] best_of(s, count)[j]).penalty.total by {
            assert(best_of(s, count)[i] == t[i] && best_of(s, count)[j] == t[j]);
        }
        assert forall|i: int, j: int|
            0 <= i < best_of(s, count).len() <= j < s.len() implies (#[trigger] best_of(s, count)[i]).penalty.total
                <= (#[trigger] sort_by_total(s)[j]).penalty.total by {
            assert(best_of(s, count)[i] == t[i]);
        }
    }
}

/// Whether the lower layers of two layouts hold the same characters.
fn same_lower_layer(a: &Layout, b: &Layout) -> (r: bool)
    ensures
        r == (a.0@ == b.0@),
{
    proof {
        a.0.lemma_len();
        b.0.lemma_len();
    }
    let mut i: usize = 0;
    while i < NUM_OF_KEYS
        invariant
            i <= NUM_OF_KEYS,
            a.0@.len() == NUM_OF_KEYS,
            b.0@.len() == NUM_OF_KEYS,
            forall|k: int| 0 <= k < i ==> a.0@[k] == b.0@[k],
        decreases NUM_OF_KEYS - i,
    {
        if a.0.key(i) != b.0.key(i) {
            return false;
        }
        i += 1;
    }
    assert(a.0@ =~= b.0@);
    true
}

/// The entries of `found` whose lower layer differs from that of `init`, in order.
pub open spec fn new_layouts(found: Seq<BestLayoutsEntry>, init: Layout) -> Seq<BestLayoutsEntry>
    decreases found.len(),
{
    if found.len() == 0 {
        seq![]
    } else if found.last().layout.0@ != init.0@ {
        new_layouts(found.drop_last(), init).push(found.last())
    } else {
        new_layouts(found.drop_last(), init)
    }
}

proof fn lemma_new_layouts_differ(found: Seq<BestLayoutsEntry>, init: Layout)
    ensures
        forall|i: int| 0 <= i < new_layouts(found, init).len() ==> (#[trigger] new_layouts(found, init)[i]).layout.0@ != init.0@,
    decreases found.len(),
{
    if found.len() > 0 {
        lemma_new_layouts_differ(found.drop_last(), init);
        let prev = new_layouts(found.drop_last(), init);
        if found.last().layout.0@ != init.0@ {
            assert forall|i: int| 0 <= i < prev.push(found.last()).len() implies (#[trigger] prev.push(found.last())[i]).layout.0@ != init.0@ by {
                if i < prev.len() {
                    assert(prev.push(found.last())[i] == prev[i]);
                }
            }
        }
    }
}

/// Every entry of the best of `s` is an entry of `s`.
pub proof fn lemma_best_of_from(s: Seq<BestLayoutsEntry>, count: int)
    requires
        0 <= count,
    ensures
        forall|i: int| 0 <= i < best_of(s, count).len() ==> s.contains(#[trigger] best_of(s, count)[i]),
{
    broadcast use vstd::seq_lib::group_to_multiset_ensures;
    lemma_sort_by_total(s);
    lemma_sort_by_total_len(s);
    let t = sort_by_total(s);
    assert forall|i: int| 0 <= i < best_of(s, count).len() implies s.contains(#[trigger] best_of(s, count)[i]) by {
        let x = best_of(s, count)[i];
        assert(x == t[i]);
        assert(t.contains(x));
        assert(t.to_multiset().count(x) > 0);
        assert(s.to_multiset().count(x) > 0);
    }
}

/// The layouts kept after a round of search: those already kept together
/// with the ones found in the round whose lower layer is not that of the
/// starting layout, cut to the `kept` with the lowest total penalty.
pub fn keep_best_layouts(best: Vec<BestLayoutsEntry>, found: Vec<BestLayoutsEntry>, init: &Layout, kept: usize) -> (r: Vec<BestLayoutsEntry>)
    ensures
        r@ == best_of(best@ + new_layouts(found@, *init), kept as int),
        forall|i: int| 0 <= i < r@.len() ==> best@.contains(#[trigger] r@[i]) || r@[i].layout.0@ != init.0@,
{
    let ghost start = best@;
    let ghost all = found@;
    let mut pool = best;
    let mut rest = found;
    let ghost mut done: int = 0;
    assert(all.take(0) =~= Seq::<BestLayoutsEntry>::empty());
    assert(all.skip(0) =~= all);
    while rest.len() > 0
        invariant
            0 <= done <= all.len(),
            rest@ == all.skip(done),
            pool@ == start + new_layouts(all.take(done), *init),
        decreases rest@.len(),
    {
        let entry = rest.remove(0);
        proof {
            assert(all.take(done + 1).drop_last() =~= all.take(done));
            assert(all.take(done + 1).last() == entry);
            assert(all.skip(done).drop_first() =~= all.skip(done + 1));
        }
        if !same_lower_layer(&entry.layout, init) {
            pool.push(entry);
        }
        proof {
            done = done + 1;
        }
    }
    proof {
        assert(all.take(done) =~= all);
    }
    let r = best_entries(pool, kept);
    proof {
        let joined = start + new_layouts(all, *init);
        lemma_best_of_from(joined, kept as int);
        lemma_new_layouts_differ(all, *init);
        assert forall|i: int| 0 <= i < r@.len() implies start.contains(#[trigger] r@[i]) || r@[i].layout.0@ != init.0@ by {
            assert(joined.contains(r@[i]));
            let j = choose|j: int| 0 <= j < joined.len() && joined[j] == r@[i];
            if j < start.len() {
                assert(start[j] == joined[j]);
            } else {
                assert(joined[j] == new_layouts(all, *init)[j - start.len()]);
            }
        }
    }
    r
}

/* ------------------------------------------------------------------ *
 * Searching for better layouts                                       *
 * ------------------------------------------------------------------ */

/// `to` is `from` with movable keys exchanged, the same swaps on both layers.
pub open spec fn reachable(from: Layout, to: Layout) -> bool {
    exists|swaps: Seq<(int, int)>|
        #![trigger apply_swaps(from.0@, swaps)]
        swappable_swaps(swaps) && apply_swaps(from.0@, swaps) == to.0@ && apply_swaps(from.1@, swaps) == to.1@
}

proof fn lemma_apply_swaps_append<T>(s: Seq<T>, a: Seq<(int, int)>, b: Seq<(int, int)>)
    ensures
        apply_swaps(apply_swaps(s, a), b) == apply_swaps(s, a + b),
    decreases b.len(),
{
    if b.len() == 0 {
        assert(a + b =~= a);
    } else {
        lemma_apply_swaps_append(s, a, b.drop_last());
        assert((a + b).drop_last() =~= a + b.drop_last());
        assert((a + b).last() == b.last());
    }
}

proof fn lemma_reachable_step(a: Layout, b: Layout, c: Layout)
    requires
        a == b || reachable(a, b),
        reachable(b, c),
    ensures
        reachable(a, c),
{
    let s2 = choose|swaps: Seq<(int, int)>|
        #![trigger apply_swaps(b.0@, swaps)]
        swappable_swaps(swaps) && apply_swaps(b.0@, swaps) == c.0@ && apply_swaps(b.1@, swaps) == c.1@;
    if a == b {
        assert(apply_swaps(a.0@, s2) == c.0@);
    } else {
        let s1 = choose|swaps: Seq<(int, int)>|
            #![trigger apply_swaps(a.0@, swaps)]
            swappable_swaps(swaps) && apply_swaps(a.0@, swaps) == b.0@ && apply_swaps(a.1@, swaps) == b.1@;
        lemma_apply_swaps_append(a.0@, s1, s2);
        lemma_apply_swaps_append(a.1@, s1, s2);
        let s = s1 + s2;
        assert forall|k: int| 0 <= k < s.len() implies crate::layout::is_swappable(#[trigger] s[k].0)
            && crate::layout::is_swappable(s[k].1) by {
            if k < s1.len() {
                assert(s[k] == s1[k]);
            } else {
                assert(s[k] == s2[k - s1.len()]);
            }
        }
        assert(apply_swaps(a.0@, s) == c.0@);
    }
}

/// A layout found by the search: its penalty is that of its layout for the
/// entries, and it comes from `start` by swaps of movable keys.
pub open spec fn found_from(e: BestLayoutsEntry, quartads: Seq<(Vec<char>, usize)>, start: Layout) -> bool {
    &&& penalty_computable(quartads, e.layout)
    &&& e.penalty.tally() == tally_of(quartads, e.layout)
    &&& reachable(start, e.layout)
}

/// `to` is `from` after at least one and at most `num_swaps` swaps of movable
/// keys, the same swaps on both layers.
pub open spec fn drawn_from(from: Layout, to: Layout, num_swaps: int) -> bool {
    exists|swaps: Seq<(int, int)>|
        #![trigger apply_swaps(from.0@, swaps)]
        1 <= swaps.len() <= num_swaps && swappable_swaps(swaps) && apply_swaps(from.0@, swaps) == to.0@
            && apply_swaps(from.1@, swaps) == to.1@
}

/// A candidate for the search: `layout` after a random number, from 1 to
/// `num_swaps`, of random swaps of movable keys.
pub fn draw_candidate(layout: &Layout, num_swaps: usize) -> (r: Layout)
    requires
        0 < num_swaps,
    ensures
        drawn_from(*layout, r, num_swaps as int),
        reachable(*layout, r),
{
    let mut candidate = *layout;
    let times = random_usize() % num_swaps + 1;
    candidate.shuffle(times);
    proof {
        let swaps = choose|swaps: Seq<(int, int)>|
            {
                &&& swaps.len() == times
                &&& swappable_swaps(swaps)
                &&& candidate.0@ == apply_swaps(layout.0@, swaps)
                &&& candidate.1@ == apply_swaps(layout.1@, swaps)
            };
        assert(apply_swaps(layout.0@, swaps) == candidate.0@);
    }
    candidate
}

/// What one step of the search gives for a candidate (see `search_step`).
pub open spec fn stepped(
    quartads: Seq<(Vec<char>, usize)>,
    accepted: BestLayoutsEntry,
    best: BestLayoutsEntry,
    candidate: Layout,
    r: (BestLayoutsEntry, BestLayoutsEntry),
) -> bool {
    &&& penalty_computable(quartads, candidate) ==> {
        let t = tally_of(quartads, candidate);
        &&& if t.total < best.penalty.total {
            r.1.layout == candidate && r.1.penalty.wf() && r.1.penalty.tally() == t
        } else {
            r.1 == best
        }
        &&& if t.total < accepted.penalty.total {
            r.0.layout == candidate && r.0.penalty.wf() && r.0.penalty.tally() == t
        } else {
            r.0 == accepted
        }
    }
    &&& !penalty_computable(quartads, candidate) ==> r == (accepted, best)
}

/// A run of the search: `states[0]` is where it starts, and each cycle `i`
/// draws `candidates[i]` from the accepted layout of `states[i]` (see
/// `drawn_from`) and steps to `states[i + 1]` with it (see `stepped`).
pub open spec fn search_trail(
    quartads: Seq<(Vec<char>, usize)>,
    states: Seq<(BestLayoutsEntry, BestLayoutsEntry)>,
    candidates: Seq<Layout>,
    num_swaps: int,
) -> bool {
    &&& states.len() == candidates.len() + 1
    &&& forall|i: int|
        0 <= i < candidates.len() ==> drawn_from(states[i].0.layout, #[trigger] candidates[i], num_swaps) && stepped(
            quartads,
            states[i].0,
            states[i].1,
            candidates[i],
            states[i + 1],
        )
}

/// One step of the search for a drawn candidate layout: when the entries can
/// be evaluated on it, its penalty replaces the best one when lower than the
/// best's total, and the accepted one when lower than the accepted total;
/// otherwise both stay.
pub fn search_step(
    quartads: &Vec<(Vec<char>, usize)>,
    accepted: BestLayoutsEntry,
    best: BestLayoutsEntry,
    candidate: &Layout,
) -> (r: (BestLayoutsEntry, BestLayoutsEntry))
    ensures
        penalty_computable(quartads@, *candidate) ==> {
            let t = tally_of(quartads@, *candidate);
            &&& if t.total < best.penalty.total {
                r.1.layout == *candidate && r.1.penalty.wf() && r.1.penalty.tally() == t
            } else {
                r.1 == best
            }
            &&& if t.total < accepted.penalty.total {
                r.0.layout == *candidate && r.0.penalty.wf() && r.0.penalty.tally() == t
            } else {
                r.0 == accepted
            }
        },
        !penalty_computable(quartads@, *candidate) ==> r == (accepted, best),
{
    match penalty_if_typeable(quartads, candidate) {
        Some(found) => {
            let mut next_best = best;
            if found.penalty.total < next_best.penalty.total {
                // the candidate may become both the best and the accepted
                // layout: the best one gets an entry of its own
                match penalty_if_typeable(quartads, candidate) {
                    Some(copy) => {
                        next_best = copy;
                    },
                    None => {},
                }
            }
            let mut next_accepted = accepted;
            if found.penalty.total < next_accepted.penalty.total {
                next_accepted = found;
            }
            (next_accepted, next_best)
        },
        None => (accepted, best),
    }
}

/// `cycles` steps of the search from `accepted` (see `search_step`): each
/// step exchanges between one and `num_swaps` random pairs of movable keys of
/// the accepted layout and takes the result as the step's candidate. Gives
/// the accepted layout and the best one.
pub fn search_layouts(
    quartads: &Vec<(Vec<char>, usize)>,
    accepted: BestLayoutsEntry,
    best: BestLayoutsEntry,
    cycles: usize,
    num_swaps: usize,
) -> (r: (BestLayoutsEntry, BestLayoutsEntry))
    requires
        0 < num_swaps,
        best.penalty.total <= accepted.penalty.total,
    ensures
        cycles == 0 ==> r == (accepted, best),
        r.0 == accepted || (r.0.penalty.total < accepted.penalty.total && found_from(r.0, quartads@, accepted.layout)),
        r.1 == best || (r.1.penalty.total < best.penalty.total && found_from(r.1, quartads@, accepted.layout)),
        r.1.penalty.total <= r.0.penalty.total,
        exists|states: Seq<(BestLayoutsEntry, BestLayoutsEntry)>, candidates: Seq<Layout>|
            #[trigger] search_trail(quartads@, states, candidates, num_swaps as int) && candidates.len() == cycles
                && states[0] == (accepted, best) && states[cycles as int] == r,
{
    let ghost start = accepted.layout;
    let ghost states: Seq<(BestLayoutsEntry, BestLayoutsEntry)> = seq![(accepted, best)];
    let ghost candidates: Seq<Layout> = Seq::empty();
    let ghost first_best = best;
    let ghost first_accepted = accepted;
    let mut current = accepted;
    let mut top = best;
    let mut n: usize = 0;
    while n < cycles
        invariant
            0 < num_swaps,
            n <= cycles,
            n == 0 ==> current == first_accepted && top == first_best,
            current == first_accepted || (current.penalty.total < first_accepted.penalty.total && found_from(
                current,
                quartads@,
                start,
            )),
            top == first_best || (top.penalty.total < first_best.penalty.total && found_from(top, quartads@, start)),
            top.penalty.total <= current.penalty.total,
            start == first_accepted.layout,
            search_trail(quartads@, states, candidates, num_swaps as int),
            candidates.len() == n,
            states[0] == (first_accepted, first_best),
            states[n as int] == (current, top),
        decreases cycles - n,
    {
        let layout = draw_candidate(&current.layout, num_swaps);
        proof {
            lemma_reachable_step(start, current.layout, layout);
        }
        let ghost before_current = current;
        let ghost before_top = top;
        let (next_current, next_top) = search_step(quartads, current, top, &layout);
        proof {
            let s2 = states.push((next_current, next_top));
            let c2 = candidates.push(layout);
            assert(stepped(quartads@, current, top, layout, (next_current, next_top)));
            assert forall|i: int| 0 <= i < c2.len() implies drawn_from(s2[i].0.layout, #[trigger] c2[i], num_swaps as int)
                && stepped(quartads@, s2[i].0, s2[i].1, c2[i], s2[i + 1]) by {
                if i < candidates.len() {
                    assert(c2[i] == candidates[i]);
                    assert(s2[i] == states[i]);
                    assert(s2[i + 1] == states[i + 1]);
                }
            }
            states = s2;
            candidates = c2;
        }
        current = next_current;
        top = next_top;
        proof {
            if penalty_computable(quartads@, layout) {
                let t = tally_of(quartads@, layout);
                assert(t.total < before_top.penalty.total ==> t.total < before_current.penalty.total);
            }
        }
        n += 1;
    }
    assert(search_trail(quartads@, states, candidates, num_swaps as int));
    (current, top)
}

} // verus!
