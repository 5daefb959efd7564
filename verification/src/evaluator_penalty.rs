//! The penalty of a single trigram of key positions, independent of any
//! characters: which rules fire for three consecutive presses, what each
//! key is charged, and, for each ordered pair of keys, the amount charged to
//! that transition and the rules that charged it.
//!
//! All amounts are exact integers in hundredths of a point: every rule uses
//! amounts that are whole multiples of a hundredth. The balance penalties
//! (uneven use of fingers and hands) are ratios and stay outside this module.
use vstd::prelude::*;
use crate::layout::{Finger, Hand, Row, EmptyKeyPress, Layout, NUM_OF_KEYS, finger_rank, row_rank, row_distance};
pub use crate::penalty::{KeyPenalty, is_roll_out, is_roll_in, is_roll_out2, is_roll_in2};
use crate::penalty::{finger_slot, hand_offset, seq_sum, lemma_seq_sum_update, lemma_seq_sum_zeros};
use vstd::string::StringExecFns;
use std::cmp::Ordering;

verus! {

/// Number of penalty categories.
pub const NUM_POSITION_PENALTIES: usize = 21;

/// The rules that charged a transition, in the order they first did; unused
/// slots hold `usize::MAX`.
pub struct PenaltyType {
    pub type_map: [usize; NUM_OF_KEYS],
}

/// The transitions from one key: the amount charged to the move to each key
/// (in hundredths), and the rules that charged it.
pub struct PosRelation {
    pub relation_map: [i64; NUM_OF_KEYS],
    pub penalty_types: Vec<PenaltyType>,
}

/// The moves from one key summed over many trigrams: the amount charged to
/// the move to each key (in hundredths), and the rules that charged it.
pub struct DisplayPosRelation {
    pub relation_map: Vec<i128>,
    pub penalty_types: Vec<Vec<usize>>,
}

/// The penalty of key positions.
pub struct Penalty {
    /// Per category, in the order of `position_penalty_names`.
    pub penalties: Vec<KeyPenalty>,
    /// How often each key was pressed.
    pub pos: [usize; NUM_OF_KEYS],
    /// Penalty charged to each key, in hundredths.
    pub pos_pen: [i64; NUM_OF_KEYS],
    /// Presses per finger: left pinky..thumb at 0..5, right pinky..thumb at 5..10.
    pub fingers: [usize; 10],
    /// Presses per hand: left, right.
    pub hands: [usize; 2],
    /// Sum of the positive amounts logged, in hundredths.
    pub bad_score_total: i64,
    /// Sum of the negative amounts logged, in hundredths.
    pub good_score_total: i64,
    /// Sum of all amounts logged, in hundredths.
    pub total: i64,
    /// Number of key presses.
    pub len: usize,
    /// The keys of the trigram.
    pub tri_pos: [usize; 3],
    /// Per key, the transitions from it.
    pub pos_relation: Vec<PosRelation>,
}

/// The numbers of a `Penalty`, as mathematical integers.
pub struct PosTally {
    pub times: Seq<int>,
    pub totals: Seq<int>,
    pub bad: int,
    pub good: int,
    pub total: int,
    pub pos: Seq<int>,
    pub pos_pen: Seq<int>,
    pub fingers: Seq<int>,
    pub hands: Seq<int>,
    pub len: int,
    pub tri_pos: Seq<int>,
    /// `relation[from][to]`: amount charged to the move `from -> to`.
    pub relation: Seq<Seq<int>>,
    /// `types[from][to]`: the rules that charged the move, `usize::MAX` where unused.
    pub types: Seq<Seq<Seq<int>>>,
}

/// The rules of one transition, as integers.
pub open spec fn type_view(t: PenaltyType) -> Seq<int> {
    t.type_map@.map_values(|x: usize| x as int)
}

/// The amounts of the transitions from one key, as integers.
pub open spec fn relation_view(r: PosRelation) -> Seq<int> {
    r.relation_map@.map_values(|x: i64| x as int)
}

/// The rules of the transitions from one key, as integers.
pub open spec fn types_view(r: PosRelation) -> Seq<Seq<int>> {
    r.penalty_types@.map_values(|t: PenaltyType| type_view(t))
}

impl Penalty {
    pub open spec fn tally(&self) -> PosTally {
        PosTally {
            times: self.penalties@.map_values(|k: KeyPenalty| k.times as int),
            totals: self.penalties@.map_values(|k: KeyPenalty| k.total as int),
            bad: self.bad_score_total as int,
            good: self.good_score_total as int,
            total: self.total as int,
            pos: self.pos@.map_values(|x: usize| x as int),
            pos_pen: self.pos_pen@.map_values(|x: i64| x as int),
            fingers: self.fingers@.map_values(|x: usize| x as int),
            hands: self.hands@.map_values(|x: usize| x as int),
            len: self.len as int,
            tri_pos: self.tri_pos@.map_values(|x: usize| x as int),
            relation: self.pos_relation@.map_values(|r: PosRelation| relation_view(r)),
            types: self.pos_relation@.map_values(|r: PosRelation| types_view(r)),
        }
    }

    /// One entry per category, one transition table per key, one rule list per transition.
    pub open spec fn wf(&self) -> bool {
        &&& self.penalties@.len() == NUM_POSITION_PENALTIES
        &&& self.pos_relation@.len() == NUM_OF_KEYS
        &&& forall|k: int| 0 <= k < NUM_OF_KEYS ==> (#[trigger] self.pos_relation@[k]).penalty_types@.len() == NUM_OF_KEYS
    }

    /// The name and visibility of each category.
    pub open spec fn labels(&self) -> Seq<(String, bool)> {
        self.penalties@.map_values(|k: KeyPenalty| (k.name, k.show))
    }
}

/// The name of each category.
pub open spec fn position_penalty_names() -> Seq<Seq<char>> {
    seq![
        "Base"@, "Same finger"@, "Long jump hand"@, "Long jump"@, "Long jump consecutive"@,
        "Rinky/ring twist"@, "Roll reversal"@, "Long roll out"@, "Alternation"@, "Roll out"@,
        "Roll in"@, "long jump sandwich"@, "twist"@, "4 times no alternation"@,
        "4 alternations in a row"@, "same finger trigram"@, "roll in bad"@, "unbalanced fingers"@,
        "unbalance hand"@, "right hand reduction"@, "bad hand swap"@,
    ]
}

/// Whether each category is shown in reports.
pub open spec fn position_penalty_shows() -> Seq<bool> {
    seq![
        true, true, true, true, true, true, true, true, true, true, true, true, true, false,
        false, true, true, true, true, true, true,
    ]
}

/// A tally with every count and amount at zero and no rules recorded.
pub open spec fn empty_pos_tally() -> PosTally {
    PosTally {
        times: Seq::new(NUM_POSITION_PENALTIES as nat, |i: int| 0int),
        totals: Seq::new(NUM_POSITION_PENALTIES as nat, |i: int| 0int),
        bad: 0,
        good: 0,
        total: 0,
        pos: Seq::new(NUM_OF_KEYS as nat, |i: int| 0int),
        pos_pen: Seq::new(NUM_OF_KEYS as nat, |i: int| 0int),
        fingers: Seq::new(10, |i: int| 0int),
        hands: Seq::new(2, |i: int| 0int),
        len: 0,
        tri_pos: Seq::new(3, |i: int| 0int),
        relation: Seq::new(NUM_OF_KEYS as nat, |i: int| Seq::new(NUM_OF_KEYS as nat, |j: int| 0int)),
        types: Seq::new(
            NUM_OF_KEYS as nat,
            |i: int| Seq::new(NUM_OF_KEYS as nat, |j: int| Seq::new(NUM_OF_KEYS as nat, |k: int| usize::MAX as int)),
        ),
    }
}

/* ------------------------------------------------------------------ *
 * The rules                                                          *
 * ------------------------------------------------------------------ */

/// Base cost of each key, in hundredths.
pub open spec fn base_costs() -> Seq<int> {
    seq![
        400, 425, 500, 500, 425, 400,
        50, 60, 125, 350, 60, 50,
        300, 30, 30, 100, 300, 30, 30, 300,
        300, 100, 100, 125, 350, 100, 100, 300,
        500, 500,
        400, 20, 500, 500, 25, 400,
    ]
}

/// Two different keys of the same finger in a row.
pub open spec fn same_finger_amount(prev: EmptyKeyPress, curr: EmptyKeyPress) -> int {
    if finger_rank(curr.finger) == finger_rank(prev.finger) && curr.pos != prev.pos {
        1000
    } else {
        0
    }
}

/// A jump between the top and the bottom row.
pub open spec fn long_jump_hand_amount(prev: EmptyKeyPress, curr: EmptyKeyPress) -> int {
    if (prev.row == Row::Bottom && curr.row == Row::Top) || (prev.row == Row::Top && curr.row == Row::Bottom) {
        250
    } else {
        0
    }
}

/// A jump between the top and the bottom row on one finger.
pub open spec fn long_jump_amount(prev: EmptyKeyPress, curr: EmptyKeyPress) -> int {
    if ((prev.row == Row::Bottom && curr.row == Row::Top) || (prev.row == Row::Top && curr.row == Row::Bottom))
        && curr.finger == prev.finger {
        1000
    } else {
        0
    }
}

/// The long-jump amount of a move is charged exactly when one finger jumps
/// between the top and the bottom row (either way): it is 10 points then, and
/// nothing for a move between two different fingers or any other pair of rows.
pub proof fn lemma_long_jump_amount_is_one_finger_top_bottom(prev: EmptyKeyPress, curr: EmptyKeyPress)
    ensures
        long_jump_amount(prev, curr) > 0 <==> prev.finger == curr.finger && ((prev.row == Row::Top && curr.row
            == Row::Bottom) || (prev.row == Row::Bottom && curr.row == Row::Top)),
        long_jump_amount(prev, curr) == 0 || long_jump_amount(prev, curr) == 1000,
        prev.finger != curr.finger ==> long_jump_amount(prev, curr) == 0,
{
}

/// A jump of two or three rows between different fingers.
pub open spec fn long_jump_consecutive_amount(prev: EmptyKeyPress, curr: EmptyKeyPress) -> int {
    if prev.finger != curr.finger && row_distance(curr.row, prev.row) == 2 {
        300
    } else if prev.finger != curr.finger && row_distance(curr.row, prev.row) == 3 {
        450
    } else {
        0
    }
}

/// The pinky moving past the ring finger, or the ring finger reaching over the pinky.
pub open spec fn pinky_ring_twist_amount(prev: EmptyKeyPress, curr: EmptyKeyPress) -> int {
    let (pf, cf, pr, cr) = (prev.finger, curr.finger, prev.row, curr.row);
    if (pf == Finger::Pinky && cf == Finger::Ring && ((pr == Row::MiddleBottom && cr == Row::MiddleBottom) || (pr
        == Row::Bottom && cr == Row::Bottom) || (pr == Row::MiddleBottom && cr == Row::Bottom))) || (pf
        == Finger::Ring && cf == Finger::Pinky && ((cr == Row::Bottom && (pr == Row::Top || pr == Row::MiddleTop
        || pr == Row::MiddleBottom)) || (cr == Row::MiddleBottom && (pr == Row::Top || pr == Row::MiddleTop)))) {
        500
    } else {
        0
    }
}

/// Rolling outwards: the amount, by the number of rows crossed.
pub open spec fn roll_out_amount(prev: EmptyKeyPress, curr: EmptyKeyPress) -> int {
    if finger_rank(prev.finger) < finger_rank(curr.finger) {
        let d = row_distance(curr.row, prev.row);
        if d == 0 {
            400
        } else if d == 1 {
            600
        } else if d == 2 {
            700
        } else {
            900
        }
    } else {
        0
    }
}

/// The category of an outward roll: a long one across two or more rows.
pub open spec fn roll_out_category(prev: EmptyKeyPress, curr: EmptyKeyPress) -> int {
    if row_distance(curr.row, prev.row) >= 2 {
        7
    } else {
        9
    }
}

/// Rolling inwards: a reward on the same or a neighbouring row, a cost across more.
pub open spec fn roll_in_amount(prev: EmptyKeyPress, curr: EmptyKeyPress) -> int {
    if finger_rank(prev.finger) > finger_rank(curr.finger) {
        let d = row_distance(curr.row, prev.row);
        if d == 0 {
            -650
        } else if d == 1 {
            -300
        } else if d == 2 {
            300
        } else {
            800
        }
    } else {
        0
    }
}

/// The category of an inward roll: a bad one across two or more rows.
pub open spec fn roll_in_category(prev: EmptyKeyPress, curr: EmptyKeyPress) -> int {
    if row_distance(curr.row, prev.row) >= 2 {
        16
    } else {
        10
    }
}

/// Reward for switching hands.
pub open spec fn alternation_amount() -> int {
    -10
}

/// Reversing the direction of a roll within one hand.
pub open spec fn reversal_amount(first: EmptyKeyPress, second: EmptyKeyPress, third: EmptyKeyPress) -> int {
    let (r1, r2, r3) = (finger_rank(first.finger), finger_rank(second.finger), finger_rank(third.finger));
    match (
        r3 < r1,
        r1 < r2,
        r3 < r2,
        third.finger == Finger::Pinky,
        third.finger == Finger::Thumb || third.finger == Finger::ThumbBottom,
        first.finger == third.finger,
    ) {
        (true, true, true, false, false, false) => 600,
        (false, false, false, true, false, false) => 400,
        (true, true, true, false, true, false) => 400,
        (false, false, false, false, false, false) => 700,
        (true, false, false, false, false, false) => 400,
        (false, false, false, false, false, true) => 200,
        (false, true, true, false, false, true) => 200,
        (false, false, false, true, false, true) => 600,
        (false, true, true, false, true, true) => 200,
        _ => 0,
    }
}

/// Three presses crossing rows in one direction on three different fingers.
pub open spec fn twist_amount(first: EmptyKeyPress, second: EmptyKeyPress, third: EmptyKeyPress) -> int {
    let (w1, w2, w3) = (row_rank(first.row), row_rank(second.row), row_rank(third.row));
    let (f1, f2, f3) = (finger_rank(first.finger), finger_rank(second.finger), finger_rank(third.finger));
    let distinct = w1 != w2 && w2 != w3 && f1 != f2 && f2 != f3 && f1 != f3;
    let monotone = (w1 > w2 && w2 > w3) || (!(w1 > w2) && !(w2 > w3));
    let wide = row_distance(second.row, first.row) > 1 || row_distance(third.row, second.row) > 1;
    if distinct && monotone {
        if wide {
            700
        } else {
            400
        }
    } else {
        0
    }
}

/// Three presses of one finger on at least two different keys.
pub open spec fn same_finger_trigram_amount(first: EmptyKeyPress, second: EmptyKeyPress, third: EmptyKeyPress) -> int {
    if first.finger == second.finger && second.finger == third.finger && !(first.pos == second.pos
        && second.pos == third.pos) {
        500
    } else {
        0
    }
}

/// The first and third press on one finger of one hand, more than one row apart.
pub open spec fn sandwich_amount(first: EmptyKeyPress, second: EmptyKeyPress, third: EmptyKeyPress) -> int {
    if third.hand == first.hand && third.finger == first.finger && row_rank(third.row) != row_rank(first.row)
        && row_distance(third.row, first.row) > 1 {
        300
    } else {
        0
    }
}

/// Changing hands after the first press, to stay on the other hand or to change again.
pub open spec fn bad_hand_swap_amount(first: EmptyKeyPress, second: EmptyKeyPress, third: EmptyKeyPress) -> int {
    if first.hand != second.hand && second.hand == third.hand && third.hand != first.hand {
        500
    } else if first.hand != second.hand && second.hand != third.hand && third.hand != first.hand {
        900
    } else {
        0
    }
}

/* ------------------------------------------------------------------ *
 * Bookkeeping                                                        *
 * ------------------------------------------------------------------ */

/// The first unused slot of a rule list at or after `k`, or -1.
pub open spec fn first_free_from(s: Seq<int>, k: int) -> int
    decreases s.len() - k,
{
    if k < 0 || k >= s.len() {
        -1
    } else if s[k] == usize::MAX as int {
        k
    } else {
        first_free_from(s, k + 1)
    }
}

/// A rule list with rule `i` written into its first unused slot (unchanged when full).
pub open spec fn record_type(s: Seq<int>, i: int) -> Seq<int> {
    let j = first_free_from(s, 0);
    if j >= 0 {
        s.update(j, i)
    } else {
        s
    }
}

/// Logs `p` (per occurrence) in category `i` for `n` occurrences: a positive
/// amount also counts as bad, a negative one as good; a zero amount changes nothing.
#[verifier::opaque]
pub open spec fn log(t: PosTally, i: int, p: int, n: int) -> PosTally {
    if p < 0 {
        PosTally {
            times: t.times.update(i, t.times[i] + n),
            totals: t.totals.update(i, t.totals[i] + p * n),
            good: t.good + p * n,
            total: t.total + p * n,
            ..t
        }
    } else if p > 0 {
        PosTally {
            times: t.times.update(i, t.times[i] + n),
            totals: t.totals.update(i, t.totals[i] + p * n),
            bad: t.bad + p * n,
            total: t.total + p * n,
            ..t
        }
    } else {
        t
    }
}

/// Adds `p` to the penalty of key `pos`.
#[verifier::opaque]
pub open spec fn bump(t: PosTally, pos: int, p: int) -> PosTally {
    PosTally { pos_pen: t.pos_pen.update(pos, t.pos_pen[pos] + p), ..t }
}

/// Charges `p` to the move `from -> to` and records rule `i` for it.
#[verifier::opaque]
pub open spec fn relate(t: PosTally, i: int, from: int, to: int, p: int) -> PosTally {
    PosTally {
        relation: t.relation.update(from, t.relation[from].update(to, t.relation[from][to] + p)),
        types: t.types.update(from, t.types[from].update(to, record_type(t.types[from][to], i))),
        ..t
    }
}

/// Counts `n` presses of `kp` for its hand, its finger and its key.
#[verifier::opaque]
pub open spec fn press(t: PosTally, kp: EmptyKeyPress, n: int) -> PosTally {
    let h = if kp.hand == Hand::Left { 0int } else { 1int };
    let f = hand_offset(kp.hand) + finger_slot(kp.finger);
    PosTally {
        hands: t.hands.update(h, t.hands[h] + n),
        fingers: t.fingers.update(f, t.fingers[f] + n),
        pos: t.pos.update(kp.pos as int, t.pos[kp.pos as int] + n),
        ..t
    }
}

/// A pair rule of category `i` with amount `p`: when `p` is not zero it is
/// logged and charged to the move; it is then charged to both keys.
#[verifier::opaque]
pub open spec fn pair_rule(t: PosTally, i: int, p: int, prev: EmptyKeyPress, curr: EmptyKeyPress, n: int) -> PosTally {
    let t1 = if p != 0 {
        relate(log(t, i, p, n), i, prev.pos as int, curr.pos as int, p)
    } else {
        t
    };
    bump(bump(t1, prev.pos as int, p), curr.pos as int, p)
}

/// The base penalty of one press: a fifth of the key's base cost.
#[verifier::opaque]
pub open spec fn base_rule(t: PosTally, kp: EmptyKeyPress, n: int) -> PosTally {
    let p = base_costs()[kp.pos as int] / 5;
    bump(log(t, 0, p, n), kp.pos as int, p)
}

/// The base cost of a move: the sum of the base costs of both keys.
#[verifier::opaque]
pub open spec fn base_relation_rule(t: PosTally, prev: EmptyKeyPress, curr: EmptyKeyPress) -> PosTally {
    relate(t, 0, prev.pos as int, curr.pos as int, base_costs()[prev.pos as int] + base_costs()[curr.pos as int])
}

/// The rules for two consecutive presses of one hand.
pub open spec fn same_hand_rules(t: PosTally, prev: EmptyKeyPress, curr: EmptyKeyPress, n: int) -> PosTally {
    if prev.hand == curr.hand {
        let t1 = pair_rule(t, 1, same_finger_amount(prev, curr), prev, curr, n);
        let t2 = pair_rule(t1, 2, long_jump_hand_amount(prev, curr), prev, curr, n);
        let t3 = pair_rule(t2, 3, long_jump_amount(prev, curr), prev, curr, n);
        let t4 = pair_rule(t3, 4, long_jump_consecutive_amount(prev, curr), prev, curr, n);
        let t5 = pair_rule(t4, 5, pinky_ring_twist_amount(prev, curr), prev, curr, n);
        let t6 = pair_rule(t5, roll_out_category(prev, curr), roll_out_amount(prev, curr), prev, curr, n);
        pair_rule(t6, roll_in_category(prev, curr), roll_in_amount(prev, curr), prev, curr, n)
    } else {
        t
    }
}

/// The rule for two consecutive presses of different hands.
#[verifier::opaque]
pub open spec fn different_hand_rule(t: PosTally, prev: EmptyKeyPress, curr: EmptyKeyPress, n: int) -> PosTally {
    if prev.hand != curr.hand {
        let p = alternation_amount();
        relate(bump(bump(log(t, 8, p, n), prev.pos as int, p), curr.pos as int, p), 8, prev.pos as int, curr.pos as int, p)
    } else {
        t
    }
}

/// A trigram rule of category `i` with amount `p`, when `p` is positive:
/// logged, and charged to both moves.
#[verifier::opaque]
pub open spec fn trigram_rule(t: PosTally, i: int, p: int, a: EmptyKeyPress, b: EmptyKeyPress, c: EmptyKeyPress, n: int) -> PosTally {
    if p > 0 {
        relate(relate(log(t, i, p, n), i, a.pos as int, b.pos as int, p), i, b.pos as int, c.pos as int, p)
    } else {
        t
    }
}

/// Charges `p` to each of three keys.
#[verifier::opaque]
pub open spec fn bump3(t: PosTally, a: EmptyKeyPress, b: EmptyKeyPress, c: EmptyKeyPress, p: int) -> PosTally {
    bump(bump(bump(t, a.pos as int, p), b.pos as int, p), c.pos as int, p)
}

/// The rules for three presses of one hand: roll reversal, twist and
/// same-finger trigram; each key is charged their sum.
pub open spec fn hand_trigram_rules(t: PosTally, a: EmptyKeyPress, b: EmptyKeyPress, c: EmptyKeyPress, n: int) -> PosTally {
    if a.hand == b.hand && b.hand == c.hand {
        let rev = reversal_amount(a, b, c);
        let tw = twist_amount(a, b, c);
        let sf = same_finger_trigram_amount(a, b, c);
        bump3(trigram_rule(trigram_rule(trigram_rule(t, 6, rev, a, b, c, n), 12, tw, a, b, c, n), 15, sf, a, b, c, n), a, b, c, rev + tw + sf)
    } else {
        t
    }
}

/// The long-jump sandwich rule of a trigram.
pub open spec fn sandwich_rule(t: PosTally, a: EmptyKeyPress, b: EmptyKeyPress, c: EmptyKeyPress, n: int) -> PosTally {
    let sw = sandwich_amount(a, b, c);
    if sw > 0 {
        bump3(trigram_rule(t, 11, sw, a, b, c, n), a, b, c, sw)
    } else {
        t
    }
}

/// The bad-hand-swap rule of a trigram: one move charged when the hand changes
/// once after the first press, both when it changes twice.
pub open spec fn bad_hand_swap_rule(t: PosTally, a: EmptyKeyPress, b: EmptyKeyPress, c: EmptyKeyPress, n: int) -> PosTally {
    let p = bad_hand_swap_amount(a, b, c);
    if p == 500 {
        bump3(log(relate(t, 20, a.pos as int, b.pos as int, p), 20, p, n), a, b, c, p)
    } else if p == 900 {
        bump3(log(relate(relate(t, 20, a.pos as int, b.pos as int, p), 20, b.pos as int, c.pos as int, p), 20, p, n), a, b, c, p)
    } else {
        t
    }
}

/// The rules for a whole trigram.
pub open spec fn trigram_rules(t: PosTally, a: EmptyKeyPress, b: EmptyKeyPress, c: EmptyKeyPress, n: int) -> PosTally {
    bad_hand_swap_rule(sandwich_rule(hand_trigram_rules(t, a, b, c, n), a, b, c, n), a, b, c, n)
}

/// The penalty of typing the keys `a`, `b`, `c` once, from nothing.
pub open spec fn position_tally(a: EmptyKeyPress, b: EmptyKeyPress, c: EmptyKeyPress) -> PosTally {
    let t0 = PosTally {
        len: 3,
        tri_pos: seq![a.pos as int, b.pos as int, c.pos as int],
        ..empty_pos_tally()
    };
    let t1 = press(press(press(t0, a, 1), b, 1), c, 1);
    let t2 = base_rule(base_rule(base_rule(t1, a, 1), b, 1), c, 1);
    let t3 = base_relation_rule(base_relation_rule(t2, a, b), b, c);
    let t4 = same_hand_rules(same_hand_rules(t3, a, b, 1), b, c, 1);
    let t5 = different_hand_rule(different_hand_rule(t4, a, b, 1), b, c, 1);
    trigram_rules(t5, a, b, c, 1)
}

/* ------------------------------------------------------------------ *
 * Overflow budgets                                                   *
 * ------------------------------------------------------------------ */

/// The amount budget that one step with `n` occurrences may use.
pub open spec fn unit(n: int) -> int {
    2000 * (n + 1)
}

/// The tally has one counter per category, key, finger and hand, a table of
/// moves per key and a rule list per move.
pub open spec fn pos_tally_wf(t: PosTally) -> bool {
    &&& t.times.len() == NUM_POSITION_PENALTIES
    &&& t.totals.len() == NUM_POSITION_PENALTIES
    &&& t.pos.len() == NUM_OF_KEYS
    &&& t.pos_pen.len() == NUM_OF_KEYS
    &&& t.fingers.len() == 10
    &&& t.hands.len() == 2
    &&& t.tri_pos.len() == 3
    &&& t.relation.len() == NUM_OF_KEYS
    &&& t.types.len() == NUM_OF_KEYS
    &&& forall|k: int| 0 <= k < NUM_OF_KEYS ==> (#[trigger] t.relation[k]).len() == NUM_OF_KEYS
    &&& forall|k: int| 0 <= k < NUM_OF_KEYS ==> (#[trigger] t.types[k]).len() == NUM_OF_KEYS
}

/// Every count can still grow by `c` and every amount by `a` either way
/// without leaving the machine types.
#[verifier::opaque]
pub open spec fn fits(t: PosTally, c: int, a: int) -> bool {
    &&& pos_tally_wf(t)
    &&& 0 <= c && 0 <= a
    &&& forall|i: int| 0 <= i < NUM_POSITION_PENALTIES ==> 0 <= #[trigger] t.times[i] && t.times[i] + c <= usize::MAX
    &&& forall|i: int|
        0 <= i < NUM_POSITION_PENALTIES ==> i64::MIN <= #[trigger] t.totals[i] - a && t.totals[i] + a <= i64::MAX
    &&& i64::MIN <= t.total - a && t.total + a <= i64::MAX
    &&& i64::MIN <= t.bad - a && t.bad + a <= i64::MAX
    &&& i64::MIN <= t.good - a && t.good + a <= i64::MAX
    &&& forall|k: int| 0 <= k < NUM_OF_KEYS ==> 0 <= #[trigger] t.pos[k] && t.pos[k] + c <= usize::MAX
    &&& forall|k: int| 0 <= k < NUM_OF_KEYS ==> i64::MIN <= #[trigger] t.pos_pen[k] - a && t.pos_pen[k] + a <= i64::MAX
    &&& forall|k: int| 0 <= k < 10 ==> 0 <= #[trigger] t.fingers[k] && t.fingers[k] + c <= usize::MAX
    &&& forall|k: int| 0 <= k < 2 ==> 0 <= #[trigger] t.hands[k] && t.hands[k] + c <= usize::MAX
    &&& 0 <= t.len && t.len + c <= usize::MAX
    &&& forall|k: int, j: int|
        0 <= k < NUM_OF_KEYS && 0 <= j < NUM_OF_KEYS ==> i64::MIN <= #[trigger] t.relation[k][j] - a
            && t.relation[k][j] + a <= i64::MAX
}

pub proof fn lemma_fits_mono(t: PosTally, c: int, a: int, c2: int, a2: int)
    requires
        fits(t, c, a),
        0 <= c2 <= c,
        0 <= a2 <= a,
    ensures
        fits(t, c2, a2),
{
    reveal(fits);
}

proof fn lemma_mul_bound(p: int, n: int)
    requires
        -1000 <= p <= 1000,
        0 <= n,
    ensures
        -1000 * n <= p * n <= 1000 * n,
{
    assert(-1000 * n <= p * n <= 1000 * n) by (nonlinear_arith)
        requires
            -1000 <= p <= 1000,
            0 <= n,
    ;
}

pub proof fn lemma_log_fits(t: PosTally, i: int, p: int, n: int, c: int, a: int)
    requires
        fits(t, c + n, a + unit(n)),
        0 <= i < NUM_POSITION_PENALTIES,
        -1000 <= p <= 1000,
        0 <= n,
        0 <= c,
        0 <= a,
    ensures
        fits(log(t, i, p, n), c, a),
{
    reveal(fits);
    reveal(log);
    lemma_mul_bound(p, n);
    let t2 = log(t, i, p, n);
    if p != 0 {
        assert forall|j: int| 0 <= j < NUM_POSITION_PENALTIES implies 0 <= #[trigger] t2.times[j] && t2.times[j] + c
            <= usize::MAX by {
            if j != i {
                assert(t2.times[j] == t.times[j]);
            }
        }
        assert forall|j: int| 0 <= j < NUM_POSITION_PENALTIES implies i64::MIN <= #[trigger] t2.totals[j] - a
            && t2.totals[j] + a <= i64::MAX by {
            if j != i {
                assert(t2.totals[j] == t.totals[j]);
            } else {
                assert(i64::MIN <= t.totals[i] - (a + unit(n)));
                assert(t.totals[i] + (a + unit(n)) <= i64::MAX);
            }
        }
    } else {
        lemma_fits_mono(t, c + n, a + unit(n), c, a);
    }
}

pub proof fn lemma_bump_fits(t: PosTally, pos: int, p: int, n: int, c: int, a: int)
    requires
        fits(t, c + n, a + unit(n)),
        0 <= pos < NUM_OF_KEYS,
        -2000 <= p <= 2000,
        0 <= n,
        0 <= c,
        0 <= a,
    ensures
        fits(bump(t, pos, p), c, a),
{
    reveal(fits);
    reveal(bump);
    let t2 = bump(t, pos, p);
    assert forall|k: int| 0 <= k < NUM_OF_KEYS implies i64::MIN <= #[trigger] t2.pos_pen[k] - a && t2.pos_pen[k] + a
        <= i64::MAX by {
        if k != pos {
            assert(t2.pos_pen[k] == t.pos_pen[k]);
        } else {
            assert(i64::MIN <= t.pos_pen[k] - (a + unit(n)));
        }
    }
}

pub proof fn lemma_relate_fits(t: PosTally, i: int, from: int, to: int, p: int, n: int, c: int, a: int)
    requires
        fits(t, c + n, a + unit(n)),
        0 <= from < NUM_OF_KEYS,
        0 <= to < NUM_OF_KEYS,
        -1000 <= p <= 1000,
        0 <= n,
        0 <= c,
        0 <= a,
    ensures
        fits(relate(t, i, from, to, p), c, a),
{
    reveal(fits);
    reveal(relate);
    let t2 = relate(t, i, from, to, p);
    assert forall|k: int, j: int| 0 <= k < NUM_OF_KEYS && 0 <= j < NUM_OF_KEYS implies i64::MIN <= #[trigger] t2.relation[k][j]
        - a && t2.relation[k][j] + a <= i64::MAX by {
        if k != from || j != to {
            assert(t2.relation[k][j] == t.relation[k][j]);
        } else {
            assert(i64::MIN <= t.relation[k][j] - (a + unit(n)));
        }
    }
    assert forall|k: int| 0 <= k < NUM_OF_KEYS implies (#[trigger] t2.relation[k]).len() == NUM_OF_KEYS by {
        if k != from {
            assert(t2.relation[k] == t.relation[k]);
        }
    }
    assert forall|k: int| 0 <= k < NUM_OF_KEYS implies (#[trigger] t2.types[k]).len() == NUM_OF_KEYS by {
        if k != from {
            assert(t2.types[k] == t.types[k]);
        }
    }
}

pub proof fn lemma_press_fits(t: PosTally, kp: EmptyKeyPress, n: int, c: int, a: int)
    requires
        fits(t, c + n, a + unit(n)),
        kp.pos < NUM_OF_KEYS,
        0 <= n,
        0 <= c,
        0 <= a,
    ensures
        fits(press(t, kp, n), c, a),
{
    reveal(fits);
    reveal(press);
}

pub proof fn lemma_pair_rule_fits(t: PosTally, i: int, p: int, prev: EmptyKeyPress, curr: EmptyKeyPress, n: int, c: int, a: int)
    requires
        fits(t, c + 4 * n, a + 4 * unit(n)),
        0 <= i < NUM_POSITION_PENALTIES,
        -1000 <= p <= 1000,
        prev.pos < NUM_OF_KEYS,
        curr.pos < NUM_OF_KEYS,
        0 <= n,
        0 <= c,
        0 <= a,
    ensures
        fits(pair_rule(t, i, p, prev, curr, n), c, a),
{
    reveal(pair_rule);
    let t1 = if p != 0 {
        lemma_log_fits(t, i, p, n, c + 3 * n, a + 3 * unit(n));
        lemma_relate_fits(log(t, i, p, n), i, prev.pos as int, curr.pos as int, p, n, c + 2 * n, a + 2 * unit(n));
        relate(log(t, i, p, n), i, prev.pos as int, curr.pos as int, p)
    } else {
        lemma_fits_mono(t, c + 4 * n, a + 4 * unit(n), c + 2 * n, a + 2 * unit(n));
        t
    };
    lemma_bump_fits(t1, prev.pos as int, p, n, c + n, a + unit(n));
    lemma_bump_fits(bump(t1, prev.pos as int, p), curr.pos as int, p, n, c, a);
}

pub proof fn lemma_trigram_rule_fits(t: PosTally, i: int, p: int, x: EmptyKeyPress, y: EmptyKeyPress, z: EmptyKeyPress, n: int, c: int, a: int)
    requires
        fits(t, c + 3 * n, a + 3 * unit(n)),
        0 <= i < NUM_POSITION_PENALTIES,
        -1000 <= p <= 1000,
        x.pos < NUM_OF_KEYS,
        y.pos < NUM_OF_KEYS,
        z.pos < NUM_OF_KEYS,
        0 <= n,
        0 <= c,
        0 <= a,
    ensures
        fits(trigram_rule(t, i, p, x, y, z, n), c, a),
{
    reveal(trigram_rule);
    if p > 0 {
        lemma_log_fits(t, i, p, n, c + 2 * n, a + 2 * unit(n));
        let t1 = log(t, i, p, n);
        lemma_relate_fits(t1, i, x.pos as int, y.pos as int, p, n, c + n, a + unit(n));
        lemma_relate_fits(relate(t1, i, x.pos as int, y.pos as int, p), i, y.pos as int, z.pos as int, p, n, c, a);
    } else {
        lemma_fits_mono(t, c + 3 * n, a + 3 * unit(n), c, a);
    }
}

pub proof fn lemma_bump3_fits(t: PosTally, x: EmptyKeyPress, y: EmptyKeyPress, z: EmptyKeyPress, p: int, n: int, c: int, a: int)
    requires
        fits(t, c + 3 * n, a + 3 * unit(n)),
        x.pos < NUM_OF_KEYS,
        y.pos < NUM_OF_KEYS,
        z.pos < NUM_OF_KEYS,
        -2000 <= p <= 2000,
        0 <= n,
        0 <= c,
        0 <= a,
    ensures
        fits(bump3(t, x, y, z, p), c, a),
{
    reveal(bump3);
    lemma_bump_fits(t, x.pos as int, p, n, c + 2 * n, a + 2 * unit(n));
    let t1 = bump(t, x.pos as int, p);
    lemma_bump_fits(t1, y.pos as int, p, n, c + n, a + unit(n));
    lemma_bump_fits(bump(t1, y.pos as int, p), z.pos as int, p, n, c, a);
}

pub proof fn lemma_base_rule_fits(t: PosTally, kp: EmptyKeyPress, n: int, c: int, a: int)
    requires
        fits(t, c + 2 * n, a + 2 * unit(n)),
        kp.pos < NUM_OF_KEYS,
        0 <= n,
        0 <= c,
        0 <= a,
    ensures
        fits(base_rule(t, kp, n), c, a),
{
    reveal(base_rule);
    let p = base_costs()[kp.pos as int] / 5;
    lemma_log_fits(t, 0, p, n, c + n, a + unit(n));
    lemma_bump_fits(log(t, 0, p, n), kp.pos as int, p, n, c, a);
}

pub proof fn lemma_base_relation_fits(t: PosTally, prev: EmptyKeyPress, curr: EmptyKeyPress, n: int, c: int, a: int)
    requires
        fits(t, c + n, a + unit(n)),
        prev.pos < NUM_OF_KEYS,
        curr.pos < NUM_OF_KEYS,
        0 <= n,
        0 <= c,
        0 <= a,
    ensures
        fits(base_relation_rule(t, prev, curr), c, a),
{
    reveal(base_relation_rule);
    lemma_relate_fits(t, 0, prev.pos as int, curr.pos as int, base_costs()[prev.pos as int] + base_costs()[curr.pos as int], n, c, a);
}

pub proof fn lemma_same_hand_fits(t: PosTally, prev: EmptyKeyPress, curr: EmptyKeyPress, n: int, c: int, a: int)
    requires
        fits(t, c + 28 * n, a + 28 * unit(n)),
        prev.pos < NUM_OF_KEYS,
        curr.pos < NUM_OF_KEYS,
        0 <= n,
        0 <= c,
        0 <= a,
    ensures
        fits(same_hand_rules(t, prev, curr, n), c, a),
{
    if prev.hand == curr.hand {
        let u = unit(n);
        lemma_pair_rule_fits(t, 1, same_finger_amount(prev, curr), prev, curr, n, c + 24 * n, a + 24 * u);
        let t1 = pair_rule(t, 1, same_finger_amount(prev, curr), prev, curr, n);
        lemma_pair_rule_fits(t1, 2, long_jump_hand_amount(prev, curr), prev, curr, n, c + 20 * n, a + 20 * u);
        let t2 = pair_rule(t1, 2, long_jump_hand_amount(prev, curr), prev, curr, n);
        lemma_pair_rule_fits(t2, 3, long_jump_amount(prev, curr), prev, curr, n, c + 16 * n, a + 16 * u);
        let t3 = pair_rule(t2, 3, long_jump_amount(prev, curr), prev, curr, n);
        lemma_pair_rule_fits(t3, 4, long_jump_consecutive_amount(prev, curr), prev, curr, n, c + 12 * n, a + 12 * u);
        let t4 = pair_rule(t3, 4, long_jump_consecutive_amount(prev, curr), prev, curr, n);
        lemma_pair_rule_fits(t4, 5, pinky_ring_twist_amount(prev, curr), prev, curr, n, c + 8 * n, a + 8 * u);
        let t5 = pair_rule(t4, 5, pinky_ring_twist_amount(prev, curr), prev, curr, n);
        lemma_pair_rule_fits(t5, roll_out_category(prev, curr), roll_out_amount(prev, curr), prev, curr, n, c + 4 * n, a + 4 * u);
        let t6 = pair_rule(t5, roll_out_category(prev, curr), roll_out_amount(prev, curr), prev, curr, n);
        lemma_pair_rule_fits(t6, roll_in_category(prev, curr), roll_in_amount(prev, curr), prev, curr, n, c, a);
    } else {
        lemma_fits_mono(t, c + 28 * n, a + 28 * unit(n), c, a);
    }
}

pub proof fn lemma_different_hand_fits(t: PosTally, prev: EmptyKeyPress, curr: EmptyKeyPress, n: int, c: int, a: int)
    requires
        fits(t, c + 4 * n, a + 4 * unit(n)),
        prev.pos < NUM_OF_KEYS,
        curr.pos < NUM_OF_KEYS,
        0 <= n,
        0 <= c,
        0 <= a,
    ensures
        fits(different_hand_rule(t, prev, curr, n), c, a),
{
    reveal(different_hand_rule);
    if prev.hand != curr.hand {
        let p = alternation_amount();
        let u = unit(n);
        lemma_log_fits(t, 8, p, n, c + 3 * n, a + 3 * u);
        let t1 = log(t, 8, p, n);
        lemma_bump_fits(t1, prev.pos as int, p, n, c + 2 * n, a + 2 * u);
        let t2 = bump(t1, prev.pos as int, p);
        lemma_bump_fits(t2, curr.pos as int, p, n, c + n, a + u);
        lemma_relate_fits(bump(t2, curr.pos as int, p), 8, prev.pos as int, curr.pos as int, p, n, c, a);
    } else {
        lemma_fits_mono(t, c + 4 * n, a + 4 * unit(n), c, a);
    }
}

pub proof fn lemma_hand_trigram_fits(t: PosTally, x: EmptyKeyPress, y: EmptyKeyPress, z: EmptyKeyPress, n: int, c: int, a: int)
    requires
        fits(t, c + 12 * n, a + 12 * unit(n)),
        x.pos < NUM_OF_KEYS,
        y.pos < NUM_OF_KEYS,
        z.pos < NUM_OF_KEYS,
        0 <= n,
        0 <= c,
        0 <= a,
    ensures
        fits(hand_trigram_rules(t, x, y, z, n), c, a),
{
    if x.hand == y.hand && y.hand == z.hand {
        let u = unit(n);
        let rev = reversal_amount(x, y, z);
        let tw = twist_amount(x, y, z);
        let sf = same_finger_trigram_amount(x, y, z);
        lemma_trigram_rule_fits(t, 6, rev, x, y, z, n, c + 9 * n, a + 9 * u);
        let t1 = trigram_rule(t, 6, rev, x, y, z, n);
        lemma_trigram_rule_fits(t1, 12, tw, x, y, z, n, c + 6 * n, a + 6 * u);
        let t2 = trigram_rule(t1, 12, tw, x, y, z, n);
        lemma_trigram_rule_fits(t2, 15, sf, x, y, z, n, c + 3 * n, a + 3 * u);
        lemma_bump3_fits(trigram_rule(t2, 15, sf, x, y, z, n), x, y, z, rev + tw + sf, n, c, a);
    } else {
        lemma_fits_mono(t, c + 12 * n, a + 12 * unit(n), c, a);
    }
}

/* ------------------------------------------------------------------ *
 * The penalty record                                                 *
 * ------------------------------------------------------------------ */

/// An empty move table: nothing charged, no rules recorded.
fn empty_relation() -> (r: PosRelation)
    ensures
        relation_view(r) == Seq::new(NUM_OF_KEYS as nat, |j: int| 0int),
        types_view(r) == Seq::new(NUM_OF_KEYS as nat, |j: int| Seq::new(NUM_OF_KEYS as nat, |k: int| usize::MAX as int)),
        r.penalty_types@.len() == NUM_OF_KEYS,
{
    let mut types: Vec<PenaltyType> = Vec::new();
    let mut j: usize = 0;
    while j < NUM_OF_KEYS
        invariant
            j <= NUM_OF_KEYS,
            types@.len() == j,
            forall|k: int| 0 <= k < j ==> type_view(#[trigger] types@[k]) == Seq::new(NUM_OF_KEYS as nat, |x: int| usize::MAX as int),
        decreases NUM_OF_KEYS - j,
    {
        let t = PenaltyType { type_map: [usize::MAX; 36] };
        assert(type_view(t) =~= Seq::new(NUM_OF_KEYS as nat, |x: int| usize::MAX as int));
        types.push(t);
        j += 1;
    }
    let r = PosRelation { relation_map: [0; 36], penalty_types: types };
    assert(relation_view(r) =~= Seq::new(NUM_OF_KEYS as nat, |j: int| 0int));
    assert(types_view(r) =~= Seq::new(NUM_OF_KEYS as nat, |j: int| Seq::new(NUM_OF_KEYS as nat, |k: int| usize::MAX as int)));
    r
}

impl Penalty {
    /// A penalty with every count and amount at zero and no rules recorded.
    pub fn new() -> (r: Penalty)
        ensures
            r.wf(),
            r.tally() == empty_pos_tally(),
            forall|i: int|
                0 <= i < NUM_POSITION_PENALTIES ==> #[trigger] r.penalties@[i].name@ == position_penalty_names()[i]
                    && r.penalties@[i].show == position_penalty_shows()[i],
    {
        let names = [
            "Base", "Same finger", "Long jump hand", "Long jump", "Long jump consecutive",
            "Rinky/ring twist", "Roll reversal", "Long roll out", "Alternation", "Roll out",
            "Roll in", "long jump sandwich", "twist", "4 times no alternation",
            "4 alternations in a row", "same finger trigram", "roll in bad", "unbalanced fingers",
            "unbalance hand", "right hand reduction", "bad hand swap",
        ];
        let shows = [
            true, true, true, true, true, true, true, true, true, true, true, true, true, false,
            false, true, true, true, true, true, true,
        ];
        proof {
            reveal_strlit("Base");
            reveal_strlit("Same finger");
            reveal_strlit("Long jump hand");
            reveal_strlit("Long jump");
            reveal_strlit("Long jump consecutive");
            reveal_strlit("Rinky/ring twist");
            reveal_strlit("Roll reversal");
            reveal_strlit("Long roll out");
            reveal_strlit("Alternation");
            reveal_strlit("Roll out");
            reveal_strlit("Roll in");
            reveal_strlit("long jump sandwich");
            reveal_strlit("twist");
            reveal_strlit("4 times no alternation");
            reveal_strlit("4 alternations in a row");
            reveal_strlit("same finger trigram");
            reveal_strlit("roll in bad");
            reveal_strlit("unbalanced fingers");
            reveal_strlit("unbalance hand");
            reveal_strlit("right hand reduction");
            reveal_strlit("bad hand swap");
        }
        let mut penalties: Vec<KeyPenalty> = Vec::new();
        let mut i: usize = 0;
        while i < NUM_POSITION_PENALTIES
            invariant
                i <= NUM_POSITION_PENALTIES,
                penalties@.len() == i,
                forall|k: int| 0 <= k < NUM_POSITION_PENALTIES ==> #[trigger] names@[k]@ == position_penalty_names()[k],
                shows@ == position_penalty_shows(),
                forall|k: int|
                    0 <= k < i ==> (#[trigger] penalties@[k]).name@ == position_penalty_names()[k]
                        && penalties@[k].show == position_penalty_shows()[k],
                forall|k: int| 0 <= k < i ==> #[trigger] penalties@[k].times == 0,
                forall|k: int| 0 <= k < i ==> #[trigger] penalties@[k].total == 0,
            decreases NUM_POSITION_PENALTIES - i,
        {
            let name = String::from_str(names[i]);
            penalties.push(KeyPenalty { name: name, show: shows[i], total: 0, times: 0 });
            assert(penalties@[i as int].name@ == position_penalty_names()[i as int]);
            i = i + 1;
        }
        let mut relations: Vec<PosRelation> = Vec::new();
        let mut k: usize = 0;
        while k < NUM_OF_KEYS
            invariant
                k <= NUM_OF_KEYS,
                relations@.len() == k,
                forall|x: int| 0 <= x < k ==> relation_view(#[trigger] relations@[x]) == Seq::new(NUM_OF_KEYS as nat, |j: int| 0int),
                forall|x: int| 0 <= x < k ==> types_view(#[trigger] relations@[x]) == Seq::new(NUM_OF_KEYS as nat, |j: int| Seq::new(NUM_OF_KEYS as nat, |y: int| usize::MAX as int)),
                forall|x: int| 0 <= x < k ==> (#[trigger] relations@[x]).penalty_types@.len() == NUM_OF_KEYS,
            decreases NUM_OF_KEYS - k,
        {
            relations.push(empty_relation());
            k += 1;
        }
        let r = Penalty {
            penalties: penalties,
            pos: [0; 36],
            pos_pen: [0; 36],
            fingers: [0; 10],
            hands: [0; 2],
            bad_score_total: 0,
            good_score_total: 0,
            total: 0,
            len: 0,
            tri_pos: [0; 3],
            pos_relation: relations,
        };
        let ghost e = empty_pos_tally();
        assert(r.tally().times =~= e.times);
        assert(r.tally().totals =~= e.totals);
        assert(r.tally().pos =~= e.pos);
        assert(r.tally().pos_pen =~= e.pos_pen);
        assert(r.tally().fingers =~= e.fingers);
        assert(r.tally().hands =~= e.hands);
        assert(r.tally().tri_pos =~= e.tri_pos);
        assert(r.tally().relation =~= e.relation);
        assert(r.tally().types =~= e.types);
        r
    }
}

/// Logging `p` per occurrence in category `i` for `n` occurrences keeps every
/// count within `usize` and every amount within `i64`.
pub open spec fn log_room(t: PosTally, i: int, p: int, n: int) -> bool {
    &&& 0 <= i < NUM_POSITION_PENALTIES
    &&& 0 <= n
    &&& i64::MIN <= p * n <= i64::MAX
    &&& p != 0 ==> t.times[i] + n <= usize::MAX && i64::MIN <= t.totals[i] + p * n <= i64::MAX && i64::MIN
        <= t.total + p * n <= i64::MAX
    &&& p < 0 ==> i64::MIN <= t.good + p * n <= i64::MAX
    &&& p > 0 ==> i64::MIN <= t.bad + p * n <= i64::MAX
}

/// A step's budget leaves room to log any amount of at most 10 points.
pub proof fn lemma_log_room(t: PosTally, i: int, p: int, n: int)
    requires
        fits(t, n, unit(n)),
        0 <= i < NUM_POSITION_PENALTIES,
        -1000 <= p <= 1000,
        0 <= n,
    ensures
        log_room(t, i, p, n),
{
    reveal(fits);
    lemma_mul_bound(p, n);
    assert(t.times[i] + n <= usize::MAX);
}

/// The tally after logging each step `(category, amount, occurrences)` in turn
/// (see `log`).
pub open spec fn log_all(t: PosTally, steps: Seq<(int, int, int)>) -> PosTally
    decreases steps.len(),
{
    if steps.len() == 0 {
        t
    } else {
        let s = steps.last();
        log(log_all(t, steps.drop_last()), s.0, s.1, s.2)
    }
}

/// The total is the bad amount plus the good one, the good amount is never
/// positive and the bad one never negative.
pub open spec fn balanced(t: PosTally) -> bool {
    t.total == t.bad + t.good && t.good <= 0 <= t.bad
}

/// From a new penalty, however many amounts are logged (each for a number of
/// occurrences that is not negative), the total stays the bad amount plus the
/// good one, with the good amount never positive and the bad one never
/// negative.
pub proof fn lemma_logging_stays_balanced(steps: Seq<(int, int, int)>)
    requires
        forall|k: int| 0 <= k < steps.len() ==> (#[trigger] steps[k]).2 >= 0,
    ensures
        balanced(log_all(empty_pos_tally(), steps)),
    decreases steps.len(),
{
    if steps.len() > 0 {
        let front = steps.drop_last();
        assert forall|k: int| 0 <= k < front.len() implies (#[trigger] front[k]).2 >= 0 by {
            assert(front[k] == steps[k]);
        }
        lemma_logging_stays_balanced(front);
        let s = steps.last();
        assert(steps[steps.len() - 1].2 >= 0);
        reveal(log);
        let p = s.1;
        let n = s.2;
        if p < 0 {
            assert(p * n <= 0) by (nonlinear_arith)
                requires
                    p < 0,
                    n >= 0,
            ;
        } else if p > 0 {
            assert(p * n >= 0) by (nonlinear_arith)
                requires
                    p > 0,
                    n >= 0,
            ;
        }
    }
}

/// Logs `penalty` (per occurrence) in category `i` for `count` occurrences: a
/// positive amount also counts as bad, a negative one as good.
pub fn log_penalty(i: usize, penalty: i64, count: &usize, result: &mut Penalty)
    requires
        old(result).wf(),
        i < NUM_POSITION_PENALTIES,
        log_room(old(result).tally(), i as int, penalty as int, *count as int),
    ensures
        final(result).wf(),
        final(result).labels() == old(result).labels(),
        final(result).tally() == log(old(result).tally(), i as int, penalty as int, *count as int),
{
    reveal(log);
    let ghost t0 = old(result).tally();
    proof {
        assert(t0.times[i as int] == old(result).penalties@[i as int].times);
        assert(t0.totals[i as int] == old(result).penalties@[i as int].total);
    }
    if penalty != 0 {
        let wide: i128 = penalty as i128 * *count as i128;
        let p = wide as i64;
        if penalty < 0 {
            result.penalties[i].times = result.penalties[i].times + *count;
            result.penalties[i].total = result.penalties[i].total + p;
            result.good_score_total = result.good_score_total + p;
        } else {
            result.penalties[i].times = result.penalties[i].times + *count;
            result.penalties[i].total = result.penalties[i].total + p;
            result.bad_score_total = result.bad_score_total + p;
        }
        result.total = result.total + p;
    }
    proof {
        let t = log(t0, i as int, penalty as int, *count as int);
        assert(result.tally().times =~= t.times);
        assert(result.tally().totals =~= t.totals);
        assert(result.tally().pos =~= t.pos);
        assert(result.tally().pos_pen =~= t.pos_pen);
        assert(result.tally().fingers =~= t.fingers);
        assert(result.tally().hands =~= t.hands);
        assert(result.tally().tri_pos =~= t.tri_pos);
        assert(result.tally().relation =~= t.relation);
        assert(result.tally().types =~= t.types);
        assert(result.labels() =~= old(result).labels());
    }
}

/// Adds `penalty` to the penalty of the key of `kp`.
pub fn update_position_penalty(kp: &EmptyKeyPress, penalty: i64, result: &mut Penalty)
    requires
        old(result).wf(),
        kp.pos < NUM_OF_KEYS,
        -2000 <= penalty <= 2000,
        fits(old(result).tally(), 0, 2000),
    ensures
        final(result).wf(),
        final(result).penalties == old(result).penalties,
        final(result).tally() == bump(old(result).tally(), kp.pos as int, penalty as int),
{
    reveal(fits);
    reveal(bump);
    proof {
        assert(old(result).tally().pos_pen[kp.pos as int] == old(result).pos_pen[kp.pos as int]);
    }
    result.pos_pen[kp.pos] = result.pos_pen[kp.pos] + penalty;
    proof {
        let t = bump(old(result).tally(), kp.pos as int, penalty as int);
        assert(result.tally().pos_pen =~= t.pos_pen);
        assert(result.tally().relation =~= t.relation);
        assert(result.tally().types =~= t.types);
    }
}

proof fn lemma_first_free_skip(s: Seq<int>, k: int)
    requires
        0 <= k <= s.len(),
        forall|j: int| 0 <= j < k ==> s[j] != usize::MAX as int,
    ensures
        first_free_from(s, 0) == first_free_from(s, k),
    decreases k,
{
    if k > 0 {
        lemma_first_free_skip(s, k - 1);
    }
}

/// Charges `penalty` to the move from the key of `prev` to the key of `curr`,
/// and records rule `penalty_index` for it in the first free slot.
pub fn update_relation_penalty(penalty_index: usize, prev: &EmptyKeyPress, curr: &EmptyKeyPress, penalty: i64, result: &mut Penalty)
    requires
        old(result).wf(),
        prev.pos < NUM_OF_KEYS,
        curr.pos < NUM_OF_KEYS,
        -1000 <= penalty <= 1000,
        fits(old(result).tally(), 0, 2000),
    ensures
        final(result).wf(),
        final(result).penalties == old(result).penalties,
        final(result).tally() == relate(old(result).tally(), penalty_index as int, prev.pos as int, curr.pos as int, penalty as int),
{
    reveal(fits);
    reveal(relate);
    let from = prev.pos;
    let to = curr.pos;
    let ghost t0 = old(result).tally();
    let ghost rel0 = old(result).pos_relation@[from as int];
    proof {
        assert(t0.relation[from as int] == relation_view(rel0));
        assert(t0.relation[from as int][to as int] == rel0.relation_map@[to as int]);
    }
    result.pos_relation[from].relation_map[to] = result.pos_relation[from].relation_map[to] + penalty;
    let ghost s0 = type_view(rel0.penalty_types@[to as int]);
    let ghost mid = *result;
    let mut found = false;
    let mut index: usize = 0;
    while index < NUM_OF_KEYS
        invariant
            index <= NUM_OF_KEYS,
            from < NUM_OF_KEYS,
            to < NUM_OF_KEYS,
            result.penalties == mid.penalties,
            result.pos == mid.pos,
            result.pos_pen == mid.pos_pen,
            result.fingers == mid.fingers,
            result.hands == mid.hands,
            result.bad_score_total == mid.bad_score_total,
            result.good_score_total == mid.good_score_total,
            result.total == mid.total,
            result.len == mid.len,
            result.tri_pos == mid.tri_pos,
            result.pos_relation@.len() == NUM_OF_KEYS,
            mid.pos_relation@.len() == NUM_OF_KEYS,
            mid.pos_relation@[from as int].penalty_types@.len() == NUM_OF_KEYS,
            forall|x: int| 0 <= x < NUM_OF_KEYS && x != from ==> #[trigger] result.pos_relation@[x] == mid.pos_relation@[x],
            result.pos_relation@[from as int].relation_map == mid.pos_relation@[from as int].relation_map,
            result.pos_relation@[from as int].penalty_types@.len() == NUM_OF_KEYS,
            forall|y: int| 0 <= y < NUM_OF_KEYS && y != to ==> #[trigger] result.pos_relation@[from as int].penalty_types@[y]
                == mid.pos_relation@[from as int].penalty_types@[y],
            s0 == type_view(mid.pos_relation@[from as int].penalty_types@[to as int]),
            s0.len() == NUM_OF_KEYS,
            !found ==> type_view(result.pos_relation@[from as int].penalty_types@[to as int]) == s0 && forall|j: int|
                0 <= j < index ==> s0[j] != usize::MAX as int,
            found ==> type_view(result.pos_relation@[from as int].penalty_types@[to as int]) == record_type(s0, penalty_index as int),
        decreases NUM_OF_KEYS - index,
    {
        if !found && result.pos_relation[from].penalty_types[to].type_map[index] == usize::MAX {
            proof {
                lemma_first_free_skip(s0, index as int);
                assert(s0[index as int] == usize::MAX as int);
                assert(first_free_from(s0, index as int) == index);
            }
            found = true;
            result.pos_relation[from].penalty_types[to].type_map[index] = penalty_index;
            proof {
                assert(type_view(result.pos_relation@[from as int].penalty_types@[to as int]) =~= record_type(s0, penalty_index as int));
            }
        }
        index += 1;
    }
    proof {
        if !found {
            lemma_first_free_skip(s0, NUM_OF_KEYS as int);
            assert(record_type(s0, penalty_index as int) == s0);
        }
        let t = relate(t0, penalty_index as int, from as int, to as int, penalty as int);
        assert(relation_view(result.pos_relation@[from as int]) =~= t0.relation[from as int].update(to as int, t0.relation[from as int][to as int] + penalty));
        assert(types_view(result.pos_relation@[from as int]) =~= t0.types[from as int].update(to as int, record_type(t0.types[from as int][to as int], penalty_index as int)));
        assert(result.tally().relation =~= t.relation);
        assert(result.tally().types =~= t.types);
        assert(result.tally().pos_pen =~= t.pos_pen);
        assert(result.tally().pos =~= t.pos);
        assert(result.tally().times =~= t.times);
        assert(result.tally().totals =~= t.totals);
        assert(result.tally().fingers =~= t.fingers);
        assert(result.tally().hands =~= t.hands);
        assert(result.tally().tri_pos =~= t.tri_pos);
    }
}

/// Counts `count` presses of the key of `kp`.
pub fn update_position(kp: &EmptyKeyPress, count: &usize, result: &mut Penalty)
    requires
        old(result).wf(),
        kp.pos < NUM_OF_KEYS,
        old(result).pos[kp.pos as int] + *count <= usize::MAX,
    ensures
        final(result).wf(),
        final(result).penalties == old(result).penalties,
        final(result).tally() == (PosTally {
            pos: old(result).tally().pos.update(kp.pos as int, old(result).tally().pos[kp.pos as int] + *count),
            ..old(result).tally()
        }),
{
    result.pos[kp.pos] = result.pos[kp.pos] + *count;
    proof {
        let t = old(result).tally();
        assert(result.tally().pos =~= t.pos.update(kp.pos as int, t.pos[kp.pos as int] + *count));
        assert(result.tally().relation =~= t.relation);
        assert(result.tally().types =~= t.types);
    }
}

/// Counts `count` presses of the finger of `kp`; `i` is the first finger slot of its hand.
fn use_finger(kp: &EmptyKeyPress, count: &usize, result: &mut Penalty, i: usize)
    requires
        i == 0 || i == 5,
        forall|k: int| 0 <= k < 10 ==> old(result).fingers[k] + *count <= usize::MAX,
    ensures
        final(result).penalties == old(result).penalties,
        final(result).pos == old(result).pos,
        final(result).pos_pen == old(result).pos_pen,
        final(result).hands == old(result).hands,
        final(result).total == old(result).total,
        final(result).bad_score_total == old(result).bad_score_total,
        final(result).good_score_total == old(result).good_score_total,
        final(result).len == old(result).len,
        final(result).tri_pos == old(result).tri_pos,
        final(result).pos_relation == old(result).pos_relation,
        final(result).fingers@ == old(result).fingers@.update(
            i + finger_slot(kp.finger),
            (old(result).fingers@[i + finger_slot(kp.finger)] + *count) as usize,
        ),
{
    let slot: usize = match kp.finger {
        Finger::Pinky => i,
        Finger::Ring => i + 1,
        Finger::Middle => i + 2,
        Finger::Index => i + 3,
        Finger::Thumb => i + 4,
        Finger::ThumbBottom => i + 4,
    };
    result.fingers[slot] = result.fingers[slot] + *count;
}

/// Counts `count` presses of the hand, the finger and the key of `kp`.
pub fn update_hand(kp: &EmptyKeyPress, count: &usize, result: &mut Penalty)
    requires
        old(result).wf(),
        kp.pos < NUM_OF_KEYS,
        fits(old(result).tally(), *count as int, 0),
    ensures
        final(result).wf(),
        final(result).penalties == old(result).penalties,
        final(result).tally() == press(old(result).tally(), *kp, *count as int),
{
    reveal(fits);
    reveal(press);
    let ghost t = old(result).tally();
    assert forall|k: int| 0 <= k < 10 implies old(result).fingers[k] + *count <= usize::MAX by {
        assert(t.fingers[k] == old(result).fingers[k]);
    }
    assert(t.pos[kp.pos as int] == old(result).pos[kp.pos as int]);
    match kp.hand {
        Hand::Left => {
            assert(t.hands[0] == old(result).hands[0]);
            result.hands[0] = result.hands[0] + *count;
            use_finger(kp, count, result, 0);
        },
        Hand::Right => {
            assert(t.hands[1] == old(result).hands[1]);
            result.hands[1] = result.hands[1] + *count;
            use_finger(kp, count, result, 5);
        },
    }
    result.pos[kp.pos] = result.pos[kp.pos] + *count;
    proof {
        let t2 = press(t, *kp, *count as int);
        assert(result.tally().hands =~= t2.hands);
        assert(result.tally().fingers =~= t2.fingers);
        assert(result.tally().pos =~= t2.pos);
        assert(result.tally().relation =~= t2.relation);
        assert(result.tally().types =~= t2.types);
    }
}

/// Base cost of each key, in hundredths.
pub fn base_cost_map() -> (t: [i64; NUM_OF_KEYS])
    ensures
        forall|i: int| 0 <= i < NUM_OF_KEYS ==> #[trigger] t@[i] == base_costs()[i],
{
    let t: [i64; NUM_OF_KEYS] = [
        400, 425, 500, 500, 425, 400,
        50, 60, 125, 350, 60, 50,
        300, 30, 30, 100, 300, 30, 30, 300,
        300, 100, 100, 125, 350, 100, 100, 300,
        500, 500,
        400, 20, 500, 500, 25, 400,
    ];
    assert(t@.map_values(|x: i64| x as int) =~= base_costs());
    assert forall|i: int| 0 <= i < NUM_OF_KEYS implies #[trigger] t@[i] == base_costs()[i] by {
        assert(t@.map_values(|x: i64| x as int)[i] == t@[i] as int);
    }
    t
}

/// Logs the base penalty of pressing `curr`: a fifth of its key's base cost.
pub fn log_base_penalty(curr: &EmptyKeyPress, count: &usize, result: &mut Penalty)
    requires
        old(result).wf(),
        curr.pos < NUM_OF_KEYS,
        fits(old(result).tally(), 2 * *count, 2 * unit(*count as int)),
    ensures
        final(result).wf(),
        final(result).labels() == old(result).labels(),
        final(result).tally() == base_rule(old(result).tally(), *curr, *count as int),
{
    reveal(base_rule);
    let table = base_cost_map();
    let penalty = table[curr.pos] / 5;
    let ghost n = *count as int;
    proof {
        lemma_fits_mono(old(result).tally(), 2 * n, 2 * unit(n), n, unit(n));
    }
    proof {
        lemma_log_room(result.tally(), 0 as int, penalty as int, *count as int);
    }
    log_penalty(0, penalty, count, result);
    proof {
        lemma_log_fits(old(result).tally(), 0, penalty as int, n, n, unit(n));
        lemma_fits_mono(result.tally(), n, unit(n), 0, 2000);
    }
    update_position_penalty(curr, penalty, result);
}

/// Charges the move from `prev` to `curr` the base costs of both keys.
pub fn log_base_relation_penalty(prev: &EmptyKeyPress, curr: &EmptyKeyPress, count: &usize, result: &mut Penalty)
    requires
        old(result).wf(),
        prev.pos < NUM_OF_KEYS,
        curr.pos < NUM_OF_KEYS,
        fits(old(result).tally(), *count as int, unit(*count as int)),
    ensures
        final(result).wf(),
        final(result).labels() == old(result).labels(),
        final(result).tally() == base_relation_rule(old(result).tally(), *prev, *curr),
{
    reveal(base_relation_rule);
    let table = base_cost_map();
    proof {
        lemma_fits_mono(old(result).tally(), *count as int, unit(*count as int), 0, 2000);
    }
    update_relation_penalty(0, prev, curr, table[prev.pos] + table[curr.pos], result);
}

/// A pair rule of category `i` with amount `penalty`: logged and charged to
/// the move when not zero, then charged to both keys.
fn log_pair(i: usize, penalty: i64, prev: &EmptyKeyPress, curr: &EmptyKeyPress, count: &usize, result: &mut Penalty)
    requires
        old(result).wf(),
        i < NUM_POSITION_PENALTIES,
        -1000 <= penalty <= 1000,
        prev.pos < NUM_OF_KEYS,
        curr.pos < NUM_OF_KEYS,
        fits(old(result).tally(), 4 * *count, 4 * unit(*count as int)),
    ensures
        final(result).wf(),
        final(result).labels() == old(result).labels(),
        final(result).tally() == pair_rule(old(result).tally(), i as int, penalty as int, *prev, *curr, *count as int),
{
    reveal(pair_rule);
    let ghost n = *count as int;
    let ghost u = unit(n);
    let ghost t = old(result).tally();
    if penalty != 0 {
        proof {
            lemma_fits_mono(t, 4 * n, 4 * u, n, u);
        }
        proof {
            lemma_log_room(result.tally(), i as int, penalty as int, *count as int);
        }
        log_penalty(i, penalty, count, result);
        proof {
            lemma_log_fits(t, i as int, penalty as int, n, 3 * n, 3 * u);
            lemma_fits_mono(result.tally(), 3 * n, 3 * u, 0, 2000);
        }
        update_relation_penalty(i, prev, curr, penalty, result);
        proof {
            lemma_relate_fits(log(t, i as int, penalty as int, n), i as int, prev.pos as int, curr.pos as int, penalty as int, n, 2 * n, 2 * u);
        }
    } else {
        proof {
            lemma_fits_mono(t, 4 * n, 4 * u, 2 * n, 2 * u);
        }
    }
    let ghost t1 = result.tally();
    proof {
        lemma_fits_mono(t1, 2 * n, 2 * u, 0, 2000);
    }
    update_position_penalty(prev, penalty, result);
    proof {
        lemma_bump_fits(t1, prev.pos as int, penalty as int, n, n, u);
        lemma_fits_mono(result.tally(), n, u, 0, 2000);
    }
    update_position_penalty(curr, penalty, result);
}

/// Two different keys of the same finger in a row.
pub fn log_same_finger_penalty(prev: &EmptyKeyPress, curr: &EmptyKeyPress, count: &usize, result: &mut Penalty)
    requires
        old(result).wf(),
        prev.pos < NUM_OF_KEYS,
        curr.pos < NUM_OF_KEYS,
        fits(old(result).tally(), 4 * *count, 4 * unit(*count as int)),
    ensures
        final(result).wf(),
        final(result).labels() == old(result).labels(),
        final(result).tally() == pair_rule(old(result).tally(), 1, same_finger_amount(*prev, *curr), *prev, *curr, *count as int),
{
    let penalty: i64 = if curr.finger.index() == prev.finger.index() && curr.pos != prev.pos { 1000 } else { 0 };
    log_pair(1, penalty, prev, curr, count, result);
}

/// A jump between the top and the bottom row.
pub fn log_long_jump_hand(prev: &EmptyKeyPress, curr: &EmptyKeyPress, count: &usize, result: &mut Penalty)
    requires
        old(result).wf(),
        prev.pos < NUM_OF_KEYS,
        curr.pos < NUM_OF_KEYS,
        fits(old(result).tally(), 4 * *count, 4 * unit(*count as int)),
    ensures
        final(result).wf(),
        final(result).labels() == old(result).labels(),
        final(result).tally() == pair_rule(old(result).tally(), 2, long_jump_hand_amount(*prev, *curr), *prev, *curr, *count as int),
{
    let penalty: i64 = match (prev.row, curr.row) {
        (Row::Bottom, Row::Top) => 250,
        (Row::Top, Row::Bottom) => 250,
        _ => 0,
    };
    log_pair(2, penalty, prev, curr, count, result);
}

/// A jump between the top and the bottom row on one finger.
pub fn log_long_jump(prev: &EmptyKeyPress, curr: &EmptyKeyPress, count: &usize, result: &mut Penalty)
    requires
        old(result).wf(),
        prev.pos < NUM_OF_KEYS,
        curr.pos < NUM_OF_KEYS,
        fits(old(result).tally(), 4 * *count, 4 * unit(*count as int)),
    ensures
        final(result).wf(),
        final(result).labels() == old(result).labels(),
        final(result).tally() == pair_rule(old(result).tally(), 3, long_jump_amount(*prev, *curr), *prev, *curr, *count as int),
{
    let same_finger = curr.finger == prev.finger;
    let penalty: i64 = match (prev.row, curr.row, same_finger) {
        (Row::Bottom, Row::Top, true) => 1000,
        (Row::Top, Row::Bottom, true) => 1000,
        _ => 0,
    };
    log_pair(3, penalty, prev, curr, count, result);
}

/// A jump of two or three rows between different fingers.
pub fn log_long_jump_consecutive(prev: &EmptyKeyPress, curr: &EmptyKeyPress, count: &usize, result: &mut Penalty)
    requires
        old(result).wf(),
        prev.pos < NUM_OF_KEYS,
        curr.pos < NUM_OF_KEYS,
        fits(old(result).tally(), 4 * *count, 4 * unit(*count as int)),
    ensures
        final(result).wf(),
        final(result).labels() == old(result).labels(),
        final(result).tally() == pair_rule(old(result).tally(), 4, long_jump_consecutive_amount(*prev, *curr), *prev, *curr, *count as int),
{
    let different = prev.finger != curr.finger;
    let penalty: i64 = match (different, curr.row.difference(prev.row)) {
        (true, 2) => 300,
        (true, 3) => 450,
        _ => 0,
    };
    log_pair(4, penalty, prev, curr, count, result);
}

/// The pinky moving past the ring finger, or the ring finger reaching over the pinky.
pub fn log_pinky_ring_twist(prev: &EmptyKeyPress, curr: &EmptyKeyPress, count: &usize, result: &mut Penalty)
    requires
        old(result).wf(),
        prev.pos < NUM_OF_KEYS,
        curr.pos < NUM_OF_KEYS,
        fits(old(result).tally(), 4 * *count, 4 * unit(*count as int)),
    ensures
        final(result).wf(),
        final(result).labels() == old(result).labels(),
        final(result).tally() == pair_rule(old(result).tally(), 5, pinky_ring_twist_amount(*prev, *curr), *prev, *curr, *count as int),
{
    let penalty: i64 = match (prev.finger, curr.finger, prev.row, curr.row) {
        (Finger::Pinky, Finger::Ring, Row::MiddleBottom, Row::MiddleBottom) => 500,
        (Finger::Pinky, Finger::Ring, Row::Bottom, Row::Bottom) => 500,
        (Finger::Pinky, Finger::Ring, Row::MiddleBottom, Row::Bottom) => 500,
        (Finger::Ring, Finger::Pinky, Row::Top, Row::Bottom) => 500,
        (Finger::Ring, Finger::Pinky, Row::MiddleTop, Row::Bottom) => 500,
        (Finger::Ring, Finger::Pinky, Row::MiddleBottom, Row::Bottom) => 500,
        (Finger::Ring, Finger::Pinky, Row::Top, Row::MiddleBottom) => 500,
        (Finger::Ring, Finger::Pinky, Row::MiddleTop, Row::MiddleBottom) => 500,
        _ => 0,
    };
    log_pair(5, penalty, prev, curr, count, result);
}

/// Rolling outwards; across two or more rows it counts as a long roll out.
pub fn log_roll_out(prev: &EmptyKeyPress, curr: &EmptyKeyPress, count: &usize, result: &mut Penalty)
    requires
        old(result).wf(),
        prev.pos < NUM_OF_KEYS,
        curr.pos < NUM_OF_KEYS,
        fits(old(result).tally(), 4 * *count, 4 * unit(*count as int)),
    ensures
        final(result).wf(),
        final(result).labels() == old(result).labels(),
        final(result).tally() == pair_rule(old(result).tally(), roll_out_category(*prev, *curr), roll_out_amount(*prev, *curr), *prev, *curr, *count as int),
{
    let outwards = prev.finger.index() < curr.finger.index();
    let (category, penalty): (usize, i64) = match (outwards, curr.row.difference(prev.row)) {
        (true, 0) => (9, 400),
        (true, 1) => (9, 600),
        (true, 2) => (7, 700),
        (true, 3) => (7, 900),
        _ => (if curr.row.difference(prev.row) >= 2 { 7 } else { 9 }, 0),
    };
    log_pair(category, penalty, prev, curr, count, result);
}

/// Rolling inwards: a reward on the same or a neighbouring row, a bad roll
/// in across more rows.
pub fn log_roll_in(prev: &EmptyKeyPress, curr: &EmptyKeyPress, count: &usize, result: &mut Penalty)
    requires
        old(result).wf(),
        prev.pos < NUM_OF_KEYS,
        curr.pos < NUM_OF_KEYS,
        fits(old(result).tally(), 4 * *count, 4 * unit(*count as int)),
    ensures
        final(result).wf(),
        final(result).labels() == old(result).labels(),
        final(result).tally() == pair_rule(old(result).tally(), roll_in_category(*prev, *curr), roll_in_amount(*prev, *curr), *prev, *curr, *count as int),
{
    let inwards = prev.finger.index() > curr.finger.index();
    let (category, penalty): (usize, i64) = match (inwards, curr.row.difference(prev.row)) {
        (true, 0) => (10, -650),
        (true, 1) => (10, -300),
        (true, 2) => (16, 300),
        (true, 3) => (16, 800),
        _ => (if curr.row.difference(prev.row) >= 2 { 16 } else { 10 }, 0),
    };
    log_pair(category, penalty, prev, curr, count, result);
}

/// The rules for two consecutive presses of one hand: same finger, long jumps,
/// pinky/ring twist and rolls; nothing when the hands differ.
pub fn evaluate_same_hand_penalties(prev: &EmptyKeyPress, curr: &EmptyKeyPress, count: &usize, result: &mut Penalty)
    requires
        old(result).wf(),
        prev.pos < NUM_OF_KEYS,
        curr.pos < NUM_OF_KEYS,
        fits(old(result).tally(), 28 * *count, 28 * unit(*count as int)),
    ensures
        final(result).wf(),
        final(result).labels() == old(result).labels(),
        final(result).tally() == same_hand_rules(old(result).tally(), *prev, *curr, *count as int),
{
    if prev.hand == curr.hand {
        let ghost n = *count as int;
        let ghost u = unit(n);
        let ghost t = old(result).tally();
        let ghost t1 = pair_rule(t, 1, same_finger_amount(*prev, *curr), *prev, *curr, n);
        let ghost t2 = pair_rule(t1, 2, long_jump_hand_amount(*prev, *curr), *prev, *curr, n);
        let ghost t3 = pair_rule(t2, 3, long_jump_amount(*prev, *curr), *prev, *curr, n);
        let ghost t4 = pair_rule(t3, 4, long_jump_consecutive_amount(*prev, *curr), *prev, *curr, n);
        let ghost t5 = pair_rule(t4, 5, pinky_ring_twist_amount(*prev, *curr), *prev, *curr, n);
        let ghost t6 = pair_rule(t5, roll_out_category(*prev, *curr), roll_out_amount(*prev, *curr), *prev, *curr, n);
        proof {
            lemma_fits_mono(t, 28 * n, 28 * u, 4 * n, 4 * u);
        }
        log_same_finger_penalty(prev, curr, count, result);
        proof {
            lemma_pair_rule_fits(t, 1, same_finger_amount(*prev, *curr), *prev, *curr, n, 24 * n, 24 * u);
            lemma_fits_mono(t1, 24 * n, 24 * u, 4 * n, 4 * u);
        }
        log_long_jump_hand(prev, curr, count, result);
        proof {
            lemma_pair_rule_fits(t1, 2, long_jump_hand_amount(*prev, *curr), *prev, *curr, n, 20 * n, 20 * u);
            lemma_fits_mono(t2, 20 * n, 20 * u, 4 * n, 4 * u);
        }
        log_long_jump(prev, curr, count, result);
        proof {
            lemma_pair_rule_fits(t2, 3, long_jump_amount(*prev, *curr), *prev, *curr, n, 16 * n, 16 * u);
            lemma_fits_mono(t3, 16 * n, 16 * u, 4 * n, 4 * u);
        }
        log_long_jump_consecutive(prev, curr, count, result);
        proof {
            lemma_pair_rule_fits(t3, 4, long_jump_consecutive_amount(*prev, *curr), *prev, *curr, n, 12 * n, 12 * u);
            lemma_fits_mono(t4, 12 * n, 12 * u, 4 * n, 4 * u);
        }
        log_pinky_ring_twist(prev, curr, count, result);
        proof {
            lemma_pair_rule_fits(t4, 5, pinky_ring_twist_amount(*prev, *curr), *prev, *curr, n, 8 * n, 8 * u);
            lemma_fits_mono(t5, 8 * n, 8 * u, 4 * n, 4 * u);
        }
        log_roll_out(prev, curr, count, result);
        proof {
            lemma_pair_rule_fits(t5, roll_out_category(*prev, *curr), roll_out_amount(*prev, *curr), *prev, *curr, n, 4 * n, 4 * u);
        }
        log_roll_in(prev, curr, count, result);
    }
}

/// The reward for two consecutive presses of different hands.
pub fn evaluate_different_hand_penalties(prev: &EmptyKeyPress, curr: &EmptyKeyPress, count: &usize, result: &mut Penalty)
    requires
        old(result).wf(),
        prev.pos < NUM_OF_KEYS,
        curr.pos < NUM_OF_KEYS,
        fits(old(result).tally(), 4 * *count, 4 * unit(*count as int)),
    ensures
        final(result).wf(),
        final(result).labels() == old(result).labels(),
        final(result).tally() == different_hand_rule(old(result).tally(), *prev, *curr, *count as int),
{
    reveal(different_hand_rule);
    if prev.hand != curr.hand {
        let ghost n = *count as int;
        let ghost u = unit(n);
        let ghost t = old(result).tally();
        let penalty: i64 = -10;
        proof {
            lemma_fits_mono(t, 4 * n, 4 * u, n, u);
        }
        proof {
            lemma_log_room(result.tally(), 8 as int, penalty as int, *count as int);
        }
        log_penalty(8, penalty, count, result);
        let ghost t1 = result.tally();
        proof {
            lemma_log_fits(t, 8, -10, n, 3 * n, 3 * u);
            lemma_fits_mono(t1, 3 * n, 3 * u, 0, 2000);
        }
        update_position_penalty(prev, penalty, result);
        let ghost t2 = result.tally();
        proof {
            lemma_bump_fits(t1, prev.pos as int, -10, n, 2 * n, 2 * u);
            lemma_fits_mono(t2, 2 * n, 2 * u, 0, 2000);
        }
        update_position_penalty(curr, penalty, result);
        proof {
            lemma_bump_fits(t2, curr.pos as int, -10, n, n, u);
            lemma_fits_mono(result.tally(), n, u, 0, 2000);
        }
        update_relation_penalty(8, prev, curr, penalty, result);
    }
}

/// A trigram rule of category `i`, when `penalty` is positive: logged and
/// charged to both moves.
fn log_trigram_rule(i: usize, penalty: i64, first: &EmptyKeyPress, second: &EmptyKeyPress, third: &EmptyKeyPress, count: &usize, result: &mut Penalty)
    requires
        old(result).wf(),
        i < NUM_POSITION_PENALTIES,
        -1000 <= penalty <= 1000,
        first.pos < NUM_OF_KEYS,
        second.pos < NUM_OF_KEYS,
        third.pos < NUM_OF_KEYS,
        fits(old(result).tally(), 3 * *count, 3 * unit(*count as int)),
    ensures
        final(result).wf(),
        final(result).labels() == old(result).labels(),
        final(result).tally() == trigram_rule(old(result).tally(), i as int, penalty as int, *first, *second, *third, *count as int),
{
    reveal(trigram_rule);
    if penalty > 0 {
        let ghost n = *count as int;
        let ghost u = unit(n);
        let ghost t = old(result).tally();
        proof {
            lemma_fits_mono(t, 3 * n, 3 * u, n, u);
        }
        proof {
            lemma_log_room(result.tally(), i as int, penalty as int, *count as int);
        }
        log_penalty(i, penalty, count, result);
        let ghost t1 = result.tally();
        proof {
            lemma_log_fits(t, i as int, penalty as int, n, 2 * n, 2 * u);
            lemma_fits_mono(t1, 2 * n, 2 * u, 0, 2000);
        }
        update_relation_penalty(i, first, second, penalty, result);
        proof {
            lemma_relate_fits(t1, i as int, first.pos as int, second.pos as int, penalty as int, n, n, u);
            lemma_fits_mono(result.tally(), n, u, 0, 2000);
        }
        update_relation_penalty(i, second, third, penalty, result);
    }
}

/// Charges `penalty` to each of three keys.
fn bump_three(first: &EmptyKeyPress, second: &EmptyKeyPress, third: &EmptyKeyPress, penalty: i64, count: &usize, result: &mut Penalty)
    requires
        old(result).wf(),
        -2000 <= penalty <= 2000,
        first.pos < NUM_OF_KEYS,
        second.pos < NUM_OF_KEYS,
        third.pos < NUM_OF_KEYS,
        fits(old(result).tally(), 3 * *count, 3 * unit(*count as int)),
    ensures
        final(result).wf(),
        final(result).labels() == old(result).labels(),
        final(result).tally() == bump3(old(result).tally(), *first, *second, *third, penalty as int),
{
    reveal(bump3);
    let ghost n = *count as int;
    let ghost u = unit(n);
    let ghost t = old(result).tally();
    proof {
        lemma_fits_mono(t, 3 * n, 3 * u, 0, 2000);
    }
    update_position_penalty(first, penalty, result);
    let ghost t1 = result.tally();
    proof {
        lemma_bump_fits(t, first.pos as int, penalty as int, n, 2 * n, 2 * u);
        lemma_fits_mono(t1, 2 * n, 2 * u, 0, 2000);
    }
    update_position_penalty(second, penalty, result);
    proof {
        lemma_bump_fits(t1, second.pos as int, penalty as int, n, n, u);
        lemma_fits_mono(result.tally(), n, u, 0, 2000);
    }
    update_position_penalty(third, penalty, result);
}

/// The roll-reversal amount of three presses of one hand.
fn reversal_penalty(first: &EmptyKeyPress, second: &EmptyKeyPress, third: &EmptyKeyPress) -> (r: i64)
    ensures
        r == reversal_amount(*first, *second, *third),
{
    let r1 = first.finger.index();
    let r2 = second.finger.index();
    let r3 = third.finger.index();
    let third_pinky = third.finger == Finger::Pinky;
    let third_thumb = third.finger == Finger::Thumb || third.finger == Finger::ThumbBottom;
    let same = first.finger == third.finger;
    match (r3 < r1, r1 < r2, r3 < r2, third_pinky, third_thumb, same) {
        (true, true, true, false, false, false) => 600,
        (false, false, false, true, false, false) => 400,
        (true, true, true, false, true, false) => 400,
        (false, false, false, false, false, false) => 700,
        (true, false, false, false, false, false) => 400,
        (false, false, false, false, false, true) => 200,
        (false, true, true, false, false, true) => 200,
        (false, false, false, true, false, true) => 600,
        (false, true, true, false, true, true) => 200,
        _ => 0,
    }
}

/// The twist amount of three presses.
fn twist_penalty(first: &EmptyKeyPress, second: &EmptyKeyPress, third: &EmptyKeyPress) -> (r: i64)
    ensures
        r == twist_amount(*first, *second, *third),
{
    let w1 = first.row.index();
    let w2 = second.row.index();
    let w3 = third.row.index();
    let f1 = first.finger.index();
    let f2 = second.finger.index();
    let f3 = third.finger.index();
    let wide = second.row.difference(first.row) > 1 || third.row.difference(second.row) > 1;
    match (w1 > w2, w2 > w3, w1 != w2, w2 != w3, f1 != f2, f2 != f3, f1 != f3, wide) {
        (true, true, true, true, true, true, true, false) => 400,
        (false, false, true, true, true, true, true, false) => 400,
        (true, true, true, true, true, true, true, true) => 700,
        (false, false, true, true, true, true, true, true) => 700,
        _ => 0,
    }
}

/// The same-finger-trigram amount of three presses.
fn same_finger_trigram_penalty(first: &EmptyKeyPress, second: &EmptyKeyPress, third: &EmptyKeyPress) -> (r: i64)
    ensures
        r == same_finger_trigram_amount(*first, *second, *third),
{
    match (
        first.finger == second.finger,
        second.finger == third.finger,
        first.pos != second.pos,
        second.pos != third.pos,
        third.pos != first.pos,
    ) {
        (true, true, true, true, true) => 500,
        (true, true, true, true, false) => 500,
        (true, true, true, false, true) => 500,
        (true, true, false, true, true) => 500,
        _ => 0,
    }
}

/// The rules of a trigram of key positions: for three presses of one hand,
/// roll reversal, twist and same-finger trigram (each logged and charged to
/// both moves; each key charged their sum); then the long-jump sandwich;
/// then the bad hand swap.
pub fn evaluate_trigram_penalties(first: &EmptyKeyPress, second: &EmptyKeyPress, third: &EmptyKeyPress, count: &usize, result: &mut Penalty)
    requires
        old(result).wf(),
        first.pos < NUM_OF_KEYS,
        second.pos < NUM_OF_KEYS,
        third.pos < NUM_OF_KEYS,
        fits(old(result).tally(), 24 * *count, 24 * unit(*count as int)),
    ensures
        final(result).wf(),
        final(result).labels() == old(result).labels(),
        final(result).tally() == trigram_rules(old(result).tally(), *first, *second, *third, *count as int),
{
    let ghost n = *count as int;
    let ghost u = unit(n);
    let ghost t = old(result).tally();
    if first.hand == second.hand && second.hand == third.hand {
        let penalty_reversal = reversal_penalty(first, second, third);
        proof {
            lemma_fits_mono(t, 24 * n, 24 * u, 3 * n, 3 * u);
        }
        log_trigram_rule(6, penalty_reversal, first, second, third, count, result);
        let ghost t1 = result.tally();
        proof {
            lemma_trigram_rule_fits(t, 6, penalty_reversal as int, *first, *second, *third, n, 21 * n, 21 * u);
            lemma_fits_mono(t1, 21 * n, 21 * u, 3 * n, 3 * u);
        }
        let penalty_twist = twist_penalty(first, second, third);
        log_trigram_rule(12, penalty_twist, first, second, third, count, result);
        let ghost t2 = result.tally();
        proof {
            lemma_trigram_rule_fits(t1, 12, penalty_twist as int, *first, *second, *third, n, 18 * n, 18 * u);
            lemma_fits_mono(t2, 18 * n, 18 * u, 3 * n, 3 * u);
        }
        let penalty_trigram = same_finger_trigram_penalty(first, second, third);
        log_trigram_rule(15, penalty_trigram, first, second, third, count, result);
        proof {
            lemma_trigram_rule_fits(t2, 15, penalty_trigram as int, *first, *second, *third, n, 15 * n, 15 * u);
            lemma_fits_mono(result.tally(), 15 * n, 15 * u, 3 * n, 3 * u);
        }
        bump_three(first, second, third, penalty_reversal + penalty_twist + penalty_trigram, count, result);
        proof {
            lemma_hand_trigram_fits(t, *first, *second, *third, n, 12 * n, 12 * u);
        }
    } else {
        proof {
            lemma_fits_mono(t, 24 * n, 24 * u, 12 * n, 12 * u);
        }
    }
    let ghost t3 = result.tally();
    assert(t3 == hand_trigram_rules(t, *first, *second, *third, n));

    let same_hand = third.hand == first.hand;
    let same_finger = third.finger == first.finger;
    let above = third.row.index() > first.row.index();
    let below = third.row.index() < first.row.index();
    let far = third.row.difference(first.row) > 1;
    let penalty_sandwich: i64 = match (same_hand, same_finger, above, below, far) {
        (true, true, true, false, true) => 300,
        (true, true, false, true, true) => 300,
        _ => 0,
    };
    if penalty_sandwich > 0 {
        proof {
            lemma_fits_mono(t3, 12 * n, 12 * u, 3 * n, 3 * u);
        }
        log_trigram_rule(11, penalty_sandwich, first, second, third, count, result);
        proof {
            lemma_trigram_rule_fits(t3, 11, penalty_sandwich as int, *first, *second, *third, n, 9 * n, 9 * u);
            lemma_fits_mono(result.tally(), 9 * n, 9 * u, 3 * n, 3 * u);
        }
        bump_three(first, second, third, penalty_sandwich, count, result);
        proof {
            lemma_bump3_fits(trigram_rule(t3, 11, penalty_sandwich as int, *first, *second, *third, n), *first, *second, *third, penalty_sandwich as int, n, 6 * n, 6 * u);
        }
    } else {
        proof {
            lemma_fits_mono(t3, 12 * n, 12 * u, 6 * n, 6 * u);
        }
    }
    let ghost t4 = result.tally();
    assert(t4 == sandwich_rule(t3, *first, *second, *third, n));

    let h12 = first.hand == second.hand;
    let h23 = second.hand == third.hand;
    let h31 = third.hand == first.hand;
    let penalty_bad_hand_swap: i64 = match (h12, h23, h31) {
        (false, true, false) => {
            proof {
                lemma_fits_mono(t4, 6 * n, 6 * u, 0, 2000);
            }
            update_relation_penalty(20, first, second, 500, result);
            500
        },
        (false, false, false) => {
            proof {
                lemma_fits_mono(t4, 6 * n, 6 * u, 0, 2000);
            }
            update_relation_penalty(20, first, second, 900, result);
            proof {
                lemma_relate_fits(t4, 20, first.pos as int, second.pos as int, 900, n, 5 * n, 5 * u);
                lemma_fits_mono(result.tally(), 5 * n, 5 * u, 0, 2000);
            }
            update_relation_penalty(20, second, third, 900, result);
            900
        },
        _ => 0,
    };
    if penalty_bad_hand_swap > 0 {
        let ghost t5 = result.tally();
        proof {
            if penalty_bad_hand_swap == 500 {
                lemma_relate_fits(t4, 20, first.pos as int, second.pos as int, 500, n, 5 * n, 5 * u);
                lemma_fits_mono(t5, 5 * n, 5 * u, 4 * n, 4 * u);
            } else {
                lemma_relate_fits(relate(t4, 20, first.pos as int, second.pos as int, 900), 20, second.pos as int, third.pos as int, 900, n, 4 * n, 4 * u);
                lemma_fits_mono(t5, 4 * n, 4 * u, 4 * n, 4 * u);
            }
            lemma_fits_mono(t5, 4 * n, 4 * u, n, u);
        }
        proof {
            lemma_log_room(result.tally(), 20 as int, penalty_bad_hand_swap as int, *count as int);
        }
        log_penalty(20, penalty_bad_hand_swap, count, result);
        proof {
            lemma_log_fits(t5, 20, penalty_bad_hand_swap as int, n, 3 * n, 3 * u);
        }
        bump_three(first, second, third, penalty_bad_hand_swap, count, result);
    }
}

/// A penalty with the labels of a fresh one has the category names and visibility.
proof fn lemma_same_labels_named(p: &Penalty, q: &Penalty)
    requires
        p.labels() == q.labels(),
        q.wf(),
        p.wf(),
        forall|i: int|
            0 <= i < NUM_POSITION_PENALTIES ==> #[trigger] q.penalties@[i].name@ == position_penalty_names()[i]
                && q.penalties@[i].show == position_penalty_shows()[i],
    ensures
        forall|i: int|
            0 <= i < NUM_POSITION_PENALTIES ==> (#[trigger] p.penalties@[i]).name@ == position_penalty_names()[i]
                && p.penalties@[i].show == position_penalty_shows()[i],
{
    assert forall|i: int| 0 <= i < NUM_POSITION_PENALTIES implies (#[trigger] p.penalties@[i]).name@
        == position_penalty_names()[i] && p.penalties@[i].show == position_penalty_shows()[i] by {
        assert(p.labels()[i] == q.labels()[i]);
        assert(q.penalties@[i].name@ == position_penalty_names()[i]);
    }
}

/// The penalty of typing the keys `old2`, `old1`, `curr1` in that order: the
/// presses, the base penalties, the base cost of both moves, the rules for
/// each pair of consecutive presses and those of the whole trigram. The
/// balance penalties (categories 17 to 19: uneven use of fingers and hands)
/// are ratios and are left at zero.
pub fn calculate_position_penalty(old2: EmptyKeyPress, old1: EmptyKeyPress, curr1: EmptyKeyPress) -> (r: Penalty)
    requires
        old2.pos < NUM_OF_KEYS,
        old1.pos < NUM_OF_KEYS,
        curr1.pos < NUM_OF_KEYS,
    ensures
        r.wf(),
        r.tally() == position_tally(old2, old1, curr1),
        forall|i: int|
            0 <= i < NUM_POSITION_PENALTIES ==> (#[trigger] r.penalties@[i]).name@ == position_penalty_names()[i]
                && r.penalties@[i].show == position_penalty_shows()[i],
{
    let mut result = Penalty::new();
    let ghost labels = result.labels();
    let ghost start = result.penalties@;
    let ghost r0 = result;
    let count: usize = 1;
    result.len = result.len + count;
    result.len = result.len + count;
    result.len = result.len + count;
    result.tri_pos[0] = old2.pos;
    result.tri_pos[1] = old1.pos;
    result.tri_pos[2] = curr1.pos;
    let ghost u = unit(1);
    let ghost t0 = result.tally();
    proof {
        let e = empty_pos_tally();
        assert(t0.tri_pos =~= seq![old2.pos as int, old1.pos as int, curr1.pos as int]);
        assert(t0 == PosTally { len: 3, tri_pos: seq![old2.pos as int, old1.pos as int, curr1.pos as int], ..e });
        reveal(fits);
        assert(fits(t0, 99, 99 * u));
        lemma_fits_mono(t0, 99, 99 * u, 1, 0);
    }
    update_hand(&old2, &count, &mut result);
    let ghost p1 = result.tally();
    proof {
        lemma_press_fits(t0, old2, 1, 98, 98 * u);
        lemma_fits_mono(p1, 98, 98 * u, 1, 0);
    }
    update_hand(&old1, &count, &mut result);
    let ghost p2 = result.tally();
    proof {
        lemma_press_fits(p1, old1, 1, 97, 97 * u);
        lemma_fits_mono(p2, 97, 97 * u, 1, 0);
    }
    update_hand(&curr1, &count, &mut result);
    let ghost t1 = result.tally();
    proof {
        lemma_press_fits(p2, curr1, 1, 96, 96 * u);
        lemma_fits_mono(t1, 96, 96 * u, 2, 2 * u);
    }
    log_base_penalty(&old2, &count, &mut result);
    let ghost b1 = result.tally();
    proof {
        lemma_base_rule_fits(t1, old2, 1, 94, 94 * u);
        lemma_fits_mono(b1, 94, 94 * u, 2, 2 * u);
    }
    log_base_penalty(&old1, &count, &mut result);
    let ghost b2 = result.tally();
    proof {
        lemma_base_rule_fits(b1, old1, 1, 92, 92 * u);
        lemma_fits_mono(b2, 92, 92 * u, 2, 2 * u);
    }
    log_base_penalty(&curr1, &count, &mut result);
    let ghost t2 = result.tally();
    proof {
        lemma_base_rule_fits(b2, curr1, 1, 90, 90 * u);
        lemma_fits_mono(t2, 90, 90 * u, 1, u);
    }
    log_base_relation_penalty(&old2, &old1, &count, &mut result);
    let ghost r1 = result.tally();
    proof {
        lemma_base_relation_fits(t2, old2, old1, 1, 89, 89 * u);
        lemma_fits_mono(r1, 89, 89 * u, 1, u);
    }
    log_base_relation_penalty(&old1, &curr1, &count, &mut result);
    let ghost t3 = result.tally();
    proof {
        lemma_base_relation_fits(r1, old1, curr1, 1, 88, 88 * u);
        lemma_fits_mono(t3, 88, 88 * u, 28, 28 * u);
    }
    evaluate_same_hand_penalties(&old2, &old1, &count, &mut result);
    let ghost s1 = result.tally();
    proof {
        lemma_same_hand_fits(t3, old2, old1, 1, 60, 60 * u);
        lemma_fits_mono(s1, 60, 60 * u, 28, 28 * u);
    }
    evaluate_same_hand_penalties(&old1, &curr1, &count, &mut result);
    let ghost t4 = result.tally();
    proof {
        lemma_same_hand_fits(s1, old1, curr1, 1, 32, 32 * u);
        lemma_fits_mono(t4, 32, 32 * u, 4, 4 * u);
    }
    evaluate_different_hand_penalties(&old2, &old1, &count, &mut result);
    let ghost d1 = result.tally();
    proof {
        lemma_different_hand_fits(t4, old2, old1, 1, 28, 28 * u);
        lemma_fits_mono(d1, 28, 28 * u, 4, 4 * u);
    }
    evaluate_different_hand_penalties(&old1, &curr1, &count, &mut result);
    let ghost t5 = result.tally();
    proof {
        lemma_different_hand_fits(d1, old1, curr1, 1, 24, 24 * u);
    }
    evaluate_trigram_penalties(&old2, &old1, &curr1, &count, &mut result);
    proof {
        lemma_same_labels_named(&result, &r0);
    }
    result
}

/* ------------------------------------------------------------------ *
 * Comparing penalties                                                *
 * ------------------------------------------------------------------ */

/// A layout with its penalty of key positions.
pub struct BestLayoutsEntry {
    pub layout: Layout,
    pub penalty: Penalty,
}

/// The categories that `better_than_other` compares.
pub open spec fn compared_categories() -> Seq<int> {
    seq![1, 2, 3, 4, 5, 6, 7, 9, 11, 12, 15, 16]
}

/// Whether `first` is lower than `second` in each compared category.
pub fn better_than_other(first: &Penalty, second: &Penalty) -> (r: bool)
    requires
        first.wf(),
        second.wf(),
    ensures
        r == forall|k: int| 0 <= k < 12 ==> #[trigger] first.penalties@[compared_categories()[k]].total
            < second.penalties@[compared_categories()[k]].total,
{
    let cats: [usize; 12] = [1, 2, 3, 4, 5, 6, 7, 9, 11, 12, 15, 16];
    assert(cats@.map_values(|x: usize| x as int) =~= compared_categories());
    let mut i: usize = 0;
    while i < 12
        invariant
            i <= 12,
            first.wf(),
            second.wf(),
            cats@.map_values(|x: usize| x as int) == compared_categories(),
            forall|k: int| 0 <= k < i ==> #[trigger] first.penalties@[compared_categories()[k]].total
                < second.penalties@[compared_categories()[k]].total,
        decreases 12 - i,
    {
        let c = cats[i];
        assert(compared_categories()[i as int] == c);
        if !(first.penalties[c].total < second.penalties[c].total) {
            return false;
        }
        i += 1;
    }
    true
}

/// Lower in total, in bad score and in each compared category.
pub fn better_than_average_including_bad(first: &Penalty, second: &Penalty) -> (r: bool)
    requires
        first.wf(),
        second.wf(),
    ensures
        r == (first.total < second.total && first.bad_score_total < second.bad_score_total && forall|k: int|
            0 <= k < 12 ==> #[trigger] first.penalties@[compared_categories()[k]].total
                < second.penalties@[compared_categories()[k]].total),
{
    first.total < second.total && first.bad_score_total < second.bad_score_total && better_than_other(first, second)
}

/// The number of categories among the first `k` in which `first` is not higher.
pub open spec fn count_not_higher(first: Seq<KeyPenalty>, second: Seq<KeyPenalty>, k: int) -> int
    decreases k,
{
    if k <= 0 {
        0
    } else {
        count_not_higher(first, second, k - 1) + if first[k - 1].total <= second[k - 1].total {
            1int
        } else {
            0
        }
    }
}

/// Not higher in more than 8 of the 21 categories (two fifths, rounded
/// down), and not higher in the same-finger category.
pub fn better_than_average(first: &Penalty, second: &Penalty) -> (r: bool)
    requires
        first.wf(),
        second.wf(),
    ensures
        r == (count_not_higher(first.penalties@, second.penalties@, NUM_POSITION_PENALTIES as int) > 8
            && first.penalties@[1].total <= second.penalties@[1].total),
{
    let mut count: usize = 0;
    let mut i: usize = 0;
    while i < NUM_POSITION_PENALTIES
        invariant
            i <= NUM_POSITION_PENALTIES,
            first.wf(),
            second.wf(),
            count == count_not_higher(first.penalties@, second.penalties@, i as int),
            count <= i,
        decreases NUM_POSITION_PENALTIES - i,
    {
        if first.penalties[i].total <= second.penalties[i].total {
            count += 1;
        }
        i += 1;
    }
    count > 8 && first.penalties[1].total <= second.penalties[1].total
}

/// How the relative difference `(first - second) / mean(first, second)`
/// compares with `percent` hundredths: 1 above, -1 below, 0 otherwise (also
/// when both are zero). A zero mean with a non-zero difference counts as an
/// infinite ratio of the difference's sign.
pub open spec fn percent_order(first: i64, second: i64, percent: i64) -> int {
    let d = first - second;
    let m = first + second;
    if m > 0 {
        if 200 * d > percent * m {
            1
        } else if 200 * d < percent * m {
            -1
        } else {
            0
        }
    } else if m < 0 {
        if 200 * d < percent * m {
            1
        } else if 200 * d > percent * m {
            -1
        } else {
            0
        }
    } else if d > 0 {
        1
    } else if d < 0 {
        -1
    } else {
        0
    }
}

/// The number of `percent_order`.
fn percent_order_number(first: i64, second: i64, percent: i64) -> (r: i8)
    requires
        percent > i64::MIN,
    ensures
        r == percent_order(first, second, percent),
{
    let d: i128 = (first as i128) - (second as i128);
    let m: i128 = (first as i128) + (second as i128);
    let lhs: i128 = 200 * d;
    assert(-0x8000_0000_0000_0000_0000_0000_0000_0000 < percent * m < 0x8000_0000_0000_0000_0000_0000_0000_0000) by (nonlinear_arith)
        requires
            -0x1_0000_0000_0000_0000 <= m <= 0x1_0000_0000_0000_0000,
            -0x8000_0000_0000_0000 < percent <= 0x7fff_ffff_ffff_ffff,
    ;
    if m == 0 {
        if d > 0 {
            1
        } else if d < 0 {
            -1
        } else {
            0
        }
    } else {
        let rhs: i128 = wide_product(percent, m);
        if m > 0 {
            if lhs > rhs {
                1
            } else if lhs < rhs {
                -1
            } else {
                0
            }
        } else {
            if lhs < rhs {
                1
            } else if lhs > rhs {
                -1
            } else {
                0
            }
        }
    }
}

/// The comparison is that of the ratio `(first - second) / mean(first,
/// second)` with `percent` hundredths, whatever the sign of the sum: with
/// `d = first - second` and `m = first + second != 0`, the ratio `2d / m`
/// exceeds `percent / 100` exactly when `200 d m > percent m^2`. With a zero
/// sum the order is that of the difference.
pub proof fn lemma_percent_order_compares_ratio(first: i64, second: i64, percent: i64)
    ensures
        ({
            let d = first - second;
            let m = first + second;
            &&& m != 0 ==> (percent_order(first, second, percent) == 1 <==> 200 * d * m > percent * m * m)
            &&& m != 0 ==> (percent_order(first, second, percent) == -1 <==> 200 * d * m < percent * m * m)
            &&& m != 0 ==> (percent_order(first, second, percent) == 0 <==> 200 * d * m == percent * m * m)
            &&& m == 0 ==> percent_order(first, second, percent) == (if d > 0 {
                1int
            } else if d < 0 {
                -1int
            } else {
                0int
            })
        }),
{
    let d = first - second;
    let m = first + second;
    let p = percent as int;
    if m > 0 {
        assert(200 * d > p * m <==> 200 * d * m > p * m * m) by (nonlinear_arith)
            requires
                m > 0,
        ;
        assert(200 * d < p * m <==> 200 * d * m < p * m * m) by (nonlinear_arith)
            requires
                m > 0,
        ;
    } else if m < 0 {
        assert(200 * d < p * m <==> 200 * d * m > p * m * m) by (nonlinear_arith)
            requires
                m < 0,
        ;
        assert(200 * d > p * m <==> 200 * d * m < p * m * m) by (nonlinear_arith)
            requires
                m < 0,
        ;
    }
}

/// Negating both amounts (of a non-zero sum) does not change how they
/// compare: the ratio of the difference to the mean is the same.
pub proof fn lemma_percent_order_negation(first: i64, second: i64, neg_first: i64, neg_second: i64, percent: i64)
    requires
        neg_first == -first,
        neg_second == -second,
        first + second != 0,
    ensures
        percent_order(neg_first, neg_second, percent) == percent_order(first, second, percent),
{
    lemma_percent_order_compares_ratio(first, second, percent);
    lemma_percent_order_compares_ratio(neg_first, neg_second, percent);
    let d = first - second;
    let m = first + second;
    let p = percent as int;
    let d2 = neg_first - neg_second;
    let m2 = neg_first + neg_second;
    assert(d2 == -d && m2 == -m);
    assert(200 * d2 * m2 == 200 * d * m) by (nonlinear_arith)
        requires
            d2 == -d,
            m2 == -m,
    ;
    assert(p * m2 * m2 == p * m * m) by (nonlinear_arith)
        requires
            m2 == -m,
    ;
}

/// The ordering with the number `o`: -1 less, 0 equal, 1 greater.
pub open spec fn ordering_of(o: int) -> Ordering {
    if o < 0 {
        Ordering::Less
    } else if o > 0 {
        Ordering::Greater
    } else {
        Ordering::Equal
    }
}

/// Compares the relative difference of two amounts with `percent` hundredths
/// (see `percent_order`).
pub fn accepted_percent_difference(first: i64, second: i64, percent: i64) -> (r: Ordering)
    requires
        percent > i64::MIN,
    ensures
        r == ordering_of(percent_order(first, second, percent)),
{
    let o = percent_order_number(first, second, percent);
    if o < 0 {
        Ordering::Less
    } else if o > 0 {
        Ordering::Greater
    } else {
        Ordering::Equal
    }
}

/// Whether the relative difference is at most `percent` hundredths.
pub fn less_than_or_equal(first: i64, second: i64, percent: i64) -> (r: bool)
    requires
        percent > i64::MIN,
    ensures
        r == (percent_order(first, second, percent) <= 0),
{
    match accepted_percent_difference(first, second, percent) {
        Ordering::Less => true,
        Ordering::Equal => true,
        _ => false,
    }
}

/// Not more than 5% worse in bad score, or else in the same-finger category,
/// or else in the roll-out category.
pub fn secondary_compare(first: &Penalty, second: &Penalty) -> (r: bool)
    requires
        first.wf(),
        second.wf(),
    ensures
        r == (percent_order(first.bad_score_total, second.bad_score_total, 5) <= 0 || percent_order(
            first.penalties@[1].total,
            second.penalties@[1].total,
            5,
        ) <= 0 || percent_order(first.penalties@[9].total, second.penalties@[9].total, 5) <= 0),
{
    match less_than_or_equal(first.bad_score_total, second.bad_score_total, 5) {
        true => true,
        false => match less_than_or_equal(first.penalties[1].total, second.penalties[1].total, 5) {
            true => true,
            false => less_than_or_equal(first.penalties[9].total, second.penalties[9].total, 5),
        },
    }
}

/// `Less` when `first` is better than average against `second`, `Greater` otherwise.
pub fn above_average(first: &Penalty, second: &Penalty) -> (r: Ordering)
    requires
        first.wf(),
        second.wf(),
    ensures
        r == (if count_not_higher(first.penalties@, second.penalties@, 21) > 8
            && first.penalties@[1].total <= second.penalties@[1].total {
            Ordering::Less
        } else {
            Ordering::Greater
        }),
{
    match better_than_average(first, second) {
        true => Ordering::Less,
        false => Ordering::Greater,
    }
}

/// The 5% comparison of two amounts.
pub fn difference_ordering(first: i64, second: i64) -> (r: Option<Ordering>)
    ensures
        r == Some(ordering_of(percent_order(first, second, 5))),
{
    Some(accepted_percent_difference(first, second, 5))
}

/// `above_average`, as an optional ordering.
pub fn above_average_ordering(first: &Penalty, second: &Penalty) -> (r: Option<Ordering>)
    requires
        first.wf(),
        second.wf(),
    ensures
        r == Some(if count_not_higher(first.penalties@, second.penalties@, 21) > 8
            && first.penalties@[1].total <= second.penalties@[1].total {
            Ordering::Less
        } else {
            Ordering::Greater
        }),
{
    Some(above_average(first, second))
}

/// The first ordering, unless it is `Equal`; then the second.
pub fn chain_partial_ordering(o1: Option<Ordering>, o2: Option<Ordering>) -> (r: Option<Ordering>)
    ensures
        r == (if o1 == Some(Ordering::Equal) {
            o2
        } else {
            o1
        }),
{
    match o1 {
        Some(Ordering::Equal) => o2,
        _ => o1,
    }
}

/// The first ordering, unless it is `Equal`; then the second; `Equal` for a missing one.
pub fn chain_ordering(o1: Option<Ordering>, o2: Option<Ordering>) -> (r: Ordering)
    ensures
        r == (match o1 {
            Some(Ordering::Equal) => match o2 {
                Some(o) => o,
                None => Ordering::Equal,
            },
            Some(o) => o,
            None => Ordering::Equal,
        }),
{
    match o1 {
        Some(ord) => match ord {
            Ordering::Equal => match o2 {
                Some(ord2) => ord2,
                None => Ordering::Equal,
            },
            _ => ord,
        },
        None => Ordering::Equal,
    }
}

/// Orders entries by their total penalty.
pub fn compare_entries(first: &BestLayoutsEntry, second: &BestLayoutsEntry) -> (r: Ordering)
    ensures
        r == (if first.penalty.total < second.penalty.total {
            Ordering::Less
        } else if first.penalty.total > second.penalty.total {
            Ordering::Greater
        } else {
            Ordering::Equal
        }),
{
    if first.penalty.total < second.penalty.total {
        Ordering::Less
    } else if first.penalty.total > second.penalty.total {
        Ordering::Greater
    } else {
        Ordering::Equal
    }
}

/// `percent * m` without overflow, for `m` no larger than twice an `i64`.
fn wide_product(percent: i64, m: i128) -> (r: i128)
    requires
        -0x1_0000_0000_0000_0000 <= m <= 0x1_0000_0000_0000_0000,
        -0x8000_0000_0000_0000_0000_0000_0000_0000 < percent * m < 0x8000_0000_0000_0000_0000_0000_0000_0000,
    ensures
        r == percent * m,
{
    (percent as i128) * m
}

/* ------------------------------------------------------------------ *
 * Laws                                                               *
 * ------------------------------------------------------------------ */

/// `t2` keeps the counter sums of `t1`, its total still differs from the sum
/// of its category totals, and from its bad and good scores, by the same
/// amounts; its bad score has not fallen and its good score has not risen.
pub open spec fn pos_same_sums(t1: PosTally, t2: PosTally) -> bool {
    &&& pos_tally_wf(t2)
    &&& seq_sum(t2.totals) - t2.total == seq_sum(t1.totals) - t1.total
    &&& t2.total - t2.bad - t2.good == t1.total - t1.bad - t1.good
    &&& t2.bad >= t1.bad
    &&& t2.good <= t1.good
    &&& seq_sum(t2.hands) == seq_sum(t1.hands)
    &&& seq_sum(t2.fingers) == seq_sum(t1.fingers)
    &&& seq_sum(t2.pos) == seq_sum(t1.pos)
    &&& t2.len == t1.len
    &&& t2.tri_pos == t1.tri_pos
}

proof fn lemma_pos_same_sums_trans(t1: PosTally, t2: PosTally, t3: PosTally)
    requires
        pos_same_sums(t1, t2),
        pos_same_sums(t2, t3),
    ensures
        pos_same_sums(t1, t3),
{
}

proof fn lemma_log_sums(t: PosTally, i: int, p: int, n: int)
    requires
        pos_tally_wf(t),
        0 <= i < NUM_POSITION_PENALTIES,
        0 <= n,
    ensures
        pos_same_sums(t, log(t, i, p, n)),
{
    reveal(log);
    if p != 0 {
        lemma_seq_sum_update(t.totals, i, t.totals[i] + p * n);
        if p > 0 {
            assert(p * n >= 0) by (nonlinear_arith)
                requires
                    p > 0,
                    n >= 0,
            ;
        } else {
            assert(p * n <= 0) by (nonlinear_arith)
                requires
                    p < 0,
                    n >= 0,
            ;
        }
    }
}

proof fn lemma_bump_sums(t: PosTally, pos: int, p: int)
    requires
        pos_tally_wf(t),
        0 <= pos < NUM_OF_KEYS,
    ensures
        pos_same_sums(t, bump(t, pos, p)),
{
    reveal(bump);
}

proof fn lemma_relate_sums(t: PosTally, i: int, from: int, to: int, p: int)
    requires
        pos_tally_wf(t),
        0 <= from < NUM_OF_KEYS,
        0 <= to < NUM_OF_KEYS,
    ensures
        pos_same_sums(t, relate(t, i, from, to, p)),
{
    reveal(relate);
    let t2 = relate(t, i, from, to, p);
    assert forall|k: int| 0 <= k < NUM_OF_KEYS implies (#[trigger] t2.relation[k]).len() == NUM_OF_KEYS by {
        if k != from {
            assert(t2.relation[k] == t.relation[k]);
        }
    }
    assert forall|k: int| 0 <= k < NUM_OF_KEYS implies (#[trigger] t2.types[k]).len() == NUM_OF_KEYS by {
        if k != from {
            assert(t2.types[k] == t.types[k]);
        }
    }
}

proof fn lemma_pair_rule_sums(t: PosTally, i: int, p: int, prev: EmptyKeyPress, curr: EmptyKeyPress, n: int)
    requires
        pos_tally_wf(t),
        0 <= i < NUM_POSITION_PENALTIES,
        prev.pos < NUM_OF_KEYS,
        curr.pos < NUM_OF_KEYS,
        0 <= n,
    ensures
        pos_same_sums(t, pair_rule(t, i, p, prev, curr, n)),
{
    reveal(pair_rule);
    let t1 = if p != 0 {
        lemma_log_sums(t, i, p, n);
        lemma_relate_sums(log(t, i, p, n), i, prev.pos as int, curr.pos as int, p);
        relate(log(t, i, p, n), i, prev.pos as int, curr.pos as int, p)
    } else {
        t
    };
    lemma_bump_sums(t1, prev.pos as int, p);
    lemma_bump_sums(bump(t1, prev.pos as int, p), curr.pos as int, p);
}

proof fn lemma_trigram_rule_sums(t: PosTally, i: int, p: int, x: EmptyKeyPress, y: EmptyKeyPress, z: EmptyKeyPress, n: int)
    requires
        pos_tally_wf(t),
        0 <= i < NUM_POSITION_PENALTIES,
        x.pos < NUM_OF_KEYS,
        y.pos < NUM_OF_KEYS,
        z.pos < NUM_OF_KEYS,
        0 <= n,
    ensures
        pos_same_sums(t, trigram_rule(t, i, p, x, y, z, n)),
{
    reveal(trigram_rule);
    if p > 0 {
        lemma_log_sums(t, i, p, n);
        let t1 = log(t, i, p, n);
        lemma_relate_sums(t1, i, x.pos as int, y.pos as int, p);
        lemma_relate_sums(relate(t1, i, x.pos as int, y.pos as int, p), i, y.pos as int, z.pos as int, p);
    }
}

proof fn lemma_bump3_sums(t: PosTally, x: EmptyKeyPress, y: EmptyKeyPress, z: EmptyKeyPress, p: int)
    requires
        pos_tally_wf(t),
        x.pos < NUM_OF_KEYS,
        y.pos < NUM_OF_KEYS,
        z.pos < NUM_OF_KEYS,
    ensures
        pos_same_sums(t, bump3(t, x, y, z, p)),
{
    reveal(bump3);
    lemma_bump_sums(t, x.pos as int, p);
    let t1 = bump(t, x.pos as int, p);
    lemma_bump_sums(t1, y.pos as int, p);
    lemma_bump_sums(bump(t1, y.pos as int, p), z.pos as int, p);
}

proof fn lemma_rules_sums(t: PosTally, a: EmptyKeyPress, b: EmptyKeyPress, c: EmptyKeyPress, n: int)
    requires
        pos_tally_wf(t),
        a.pos < NUM_OF_KEYS,
        b.pos < NUM_OF_KEYS,
        c.pos < NUM_OF_KEYS,
        0 <= n,
    ensures
        pos_same_sums(t, base_rule(t, a, n)),
        pos_same_sums(t, base_relation_rule(t, a, b)),
        pos_same_sums(t, same_hand_rules(t, a, b, n)),
        pos_same_sums(t, different_hand_rule(t, a, b, n)),
        pos_same_sums(t, trigram_rules(t, a, b, c, n)),
{
    reveal(base_rule);
    reveal(base_relation_rule);
    reveal(different_hand_rule);
    let pa = base_costs()[a.pos as int] / 5;
    lemma_log_sums(t, 0, pa, n);
    lemma_bump_sums(log(t, 0, pa, n), a.pos as int, pa);
    lemma_relate_sums(t, 0, a.pos as int, b.pos as int, base_costs()[a.pos as int] + base_costs()[b.pos as int]);
    if a.hand == b.hand {
        lemma_pair_rule_sums(t, 1, same_finger_amount(a, b), a, b, n);
        let t1 = pair_rule(t, 1, same_finger_amount(a, b), a, b, n);
        lemma_pair_rule_sums(t1, 2, long_jump_hand_amount(a, b), a, b, n);
        let t2 = pair_rule(t1, 2, long_jump_hand_amount(a, b), a, b, n);
        lemma_pair_rule_sums(t2, 3, long_jump_amount(a, b), a, b, n);
        let t3 = pair_rule(t2, 3, long_jump_amount(a, b), a, b, n);
        lemma_pair_rule_sums(t3, 4, long_jump_consecutive_amount(a, b), a, b, n);
        let t4 = pair_rule(t3, 4, long_jump_consecutive_amount(a, b), a, b, n);
        lemma_pair_rule_sums(t4, 5, pinky_ring_twist_amount(a, b), a, b, n);
        let t5 = pair_rule(t4, 5, pinky_ring_twist_amount(a, b), a, b, n);
        lemma_pair_rule_sums(t5, roll_out_category(a, b), roll_out_amount(a, b), a, b, n);
        let t6 = pair_rule(t5, roll_out_category(a, b), roll_out_amount(a, b), a, b, n);
        lemma_pair_rule_sums(t6, roll_in_category(a, b), roll_in_amount(a, b), a, b, n);
    } else {
        let p = alternation_amount();
        lemma_log_sums(t, 8, p, n);
        let l = log(t, 8, p, n);
        lemma_bump_sums(l, a.pos as int, p);
        lemma_bump_sums(bump(l, a.pos as int, p), b.pos as int, p);
        let m = bump(bump(l, a.pos as int, p), b.pos as int, p);
        lemma_relate_sums(m, 8, a.pos as int, b.pos as int, p);
    }
    let h = hand_trigram_rules(t, a, b, c, n);
    if a.hand == b.hand && b.hand == c.hand {
        let rev = reversal_amount(a, b, c);
        let tw = twist_amount(a, b, c);
        let sf = same_finger_trigram_amount(a, b, c);
        lemma_trigram_rule_sums(t, 6, rev, a, b, c, n);
        let r1 = trigram_rule(t, 6, rev, a, b, c, n);
        lemma_trigram_rule_sums(r1, 12, tw, a, b, c, n);
        let r2 = trigram_rule(r1, 12, tw, a, b, c, n);
        lemma_trigram_rule_sums(r2, 15, sf, a, b, c, n);
        lemma_bump3_sums(trigram_rule(r2, 15, sf, a, b, c, n), a, b, c, rev + tw + sf);
    }
    let sw = sandwich_amount(a, b, c);
    let s = sandwich_rule(h, a, b, c, n);
    if sw > 0 {
        lemma_trigram_rule_sums(h, 11, sw, a, b, c, n);
        lemma_bump3_sums(trigram_rule(h, 11, sw, a, b, c, n), a, b, c, sw);
    }
    let p = bad_hand_swap_amount(a, b, c);
    if p == 500 {
        lemma_relate_sums(s, 20, a.pos as int, b.pos as int, p);
        let r1 = relate(s, 20, a.pos as int, b.pos as int, p);
        lemma_log_sums(r1, 20, p, n);
        lemma_bump3_sums(log(r1, 20, p, n), a, b, c, p);
    } else if p == 900 {
        lemma_relate_sums(s, 20, a.pos as int, b.pos as int, p);
        let r1 = relate(s, 20, a.pos as int, b.pos as int, p);
        lemma_relate_sums(r1, 20, b.pos as int, c.pos as int, p);
        let r2 = relate(r1, 20, b.pos as int, c.pos as int, p);
        lemma_log_sums(r2, 20, p, n);
        lemma_bump3_sums(log(r2, 20, p, n), a, b, c, p);
    }
}

proof fn lemma_press_sums(t: PosTally, k: EmptyKeyPress, n: int)
    requires
        pos_tally_wf(t),
        k.pos < NUM_OF_KEYS,
    ensures
        ({
            let t2 = press(t, k, n);
            &&& pos_tally_wf(t2)
            &&& seq_sum(t2.hands) == seq_sum(t.hands) + n
            &&& seq_sum(t2.fingers) == seq_sum(t.fingers) + n
            &&& seq_sum(t2.pos) == seq_sum(t.pos) + n
            &&& t2.totals == t.totals
            &&& t2.total == t.total
            &&& t2.bad == t.bad
            &&& t2.good == t.good
            &&& t2.len == t.len
            &&& t2.tri_pos == t.tri_pos
        }),
{
    reveal(press);
    let hi = if k.hand == Hand::Left { 0int } else { 1int };
    let f = hand_offset(k.hand) + finger_slot(k.finger);
    lemma_seq_sum_update(t.hands, hi, t.hands[hi] + n);
    lemma_seq_sum_update(t.fingers, f, t.fingers[f] + n);
    lemma_seq_sum_update(t.pos, k.pos as int, t.pos[k.pos as int] + n);
}

/// The penalty of a trigram of keys is three presses: three key presses, split
/// exactly over the hands, over the finger counters and over the keys; the
/// total is the sum of the category totals and the sum of the bad and good
/// scores, the bad score is never negative and the good score never positive;
/// and the trigram's keys are recorded in order.
pub proof fn lemma_position_tally_consistent(a: EmptyKeyPress, b: EmptyKeyPress, c: EmptyKeyPress)
    requires
        a.pos < NUM_OF_KEYS,
        b.pos < NUM_OF_KEYS,
        c.pos < NUM_OF_KEYS,
    ensures
        ({
            let t = position_tally(a, b, c);
            &&& pos_tally_wf(t)
            &&& t.len == 3
            &&& seq_sum(t.hands) == 3
            &&& seq_sum(t.fingers) == 3
            &&& seq_sum(t.pos) == 3
            &&& seq_sum(t.totals) == t.total
            &&& t.total == t.bad + t.good
            &&& t.bad >= 0
            &&& t.good <= 0
            &&& t.tri_pos == seq![a.pos as int, b.pos as int, c.pos as int]
        }),
{
    let e = empty_pos_tally();
    lemma_seq_sum_zeros(NUM_POSITION_PENALTIES as nat);
    lemma_seq_sum_zeros(NUM_OF_KEYS as nat);
    lemma_seq_sum_zeros(10);
    lemma_seq_sum_zeros(2);
    let t0 = PosTally { len: 3, tri_pos: seq![a.pos as int, b.pos as int, c.pos as int], ..e };
    assert(pos_tally_wf(t0));
    lemma_press_sums(t0, a, 1);
    let p1 = press(t0, a, 1);
    lemma_press_sums(p1, b, 1);
    let p2 = press(p1, b, 1);
    lemma_press_sums(p2, c, 1);
    let t1 = press(p2, c, 1);
    lemma_rules_sums(t1, a, b, c, 1);
    let b1 = base_rule(t1, a, 1);
    lemma_rules_sums(b1, b, c, a, 1);
    let b2 = base_rule(b1, b, 1);
    lemma_rules_sums(b2, c, a, b, 1);
    let t2 = base_rule(b2, c, 1);
    lemma_pos_same_sums_trans(t1, b1, b2);
    lemma_pos_same_sums_trans(t1, b2, t2);
    lemma_rules_sums(t2, a, b, c, 1);
    let r1 = base_relation_rule(t2, a, b);
    lemma_rules_sums(r1, b, c, a, 1);
    let t3 = base_relation_rule(r1, b, c);
    lemma_pos_same_sums_trans(t1, t2, r1);
    lemma_pos_same_sums_trans(t1, r1, t3);
    lemma_rules_sums(t3, a, b, c, 1);
    let s1 = same_hand_rules(t3, a, b, 1);
    lemma_rules_sums(s1, b, c, a, 1);
    let t4 = same_hand_rules(s1, b, c, 1);
    lemma_pos_same_sums_trans(t1, t3, s1);
    lemma_pos_same_sums_trans(t1, s1, t4);
    lemma_rules_sums(t4, a, b, c, 1);
    let d1 = different_hand_rule(t4, a, b, 1);
    lemma_rules_sums(d1, b, c, a, 1);
    let t5 = different_hand_rule(d1, b, c, 1);
    lemma_pos_same_sums_trans(t1, t4, d1);
    lemma_pos_same_sums_trans(t1, d1, t5);
    lemma_rules_sums(t5, a, b, c, 1);
    lemma_pos_same_sums_trans(t1, t5, trigram_rules(t5, a, b, c, 1));
}

} // verus!
