use keygen::evaluator_penalty::{
    above_average_ordering, accepted_percent_difference, better_than_average_including_bad, better_than_other,
    calculate_position_penalty, chain_ordering, chain_partial_ordering, compare_entries, difference_ordering,
    less_than_or_equal, log_penalty, secondary_compare, BestLayoutsEntry, Penalty,
};
use keygen::layout::get_empty_position_map;
use std::cmp::Ordering;

fn penalty_of(a: usize, b: usize, c: usize) -> Penalty {
    let map = get_empty_position_map();
    calculate_position_penalty(map.get_key_position(a), map.get_key_position(b), map.get_key_position(c))
}

fn types(p: &Penalty, from: usize, to: usize) -> Vec<usize> {
    p.pos_relation[from].penalty_types[to].type_map.iter().copied().filter(|t| *t != usize::MAX).collect()
}

#[test]
fn fresh_position_penalty() {
    let p = Penalty::new();
    assert_eq!(p.penalties.len(), 21);
    assert_eq!(p.penalties[20].name, "bad hand swap");
    assert_eq!(p.pos_relation.len(), 36);
    assert!(p.pos_relation.iter().all(|r| r.penalty_types.len() == 36));
    assert!(types(&p, 3, 4).is_empty());
    assert_eq!(p.total, 0);
}

#[test]
fn inward_roll_on_home_row() {
    let p = penalty_of(13, 14, 15);
    assert_eq!(p.len, 3);
    assert_eq!(p.tri_pos, [13, 14, 15]);
    assert_eq!(p.hands, [3, 0]);
    assert_eq!(p.fingers, [0, 1, 1, 1, 0, 0, 0, 0, 0, 0]);
    assert_eq!(p.penalties[0].times, 3);
    assert_eq!(p.penalties[0].total, 32);
    assert_eq!(p.penalties[10].times, 2);
    assert_eq!(p.penalties[10].total, -1300);
    assert_eq!(p.bad_score_total, 32);
    assert_eq!(p.good_score_total, -1300);
    assert_eq!(p.total, -1268);
    assert_eq!(p.pos_pen[13], -644);
    assert_eq!(p.pos_pen[14], -1294);
    assert_eq!(p.pos_pen[15], -630);
    assert_eq!(p.pos_relation[13].relation_map[14], -590);
    assert_eq!(p.pos_relation[14].relation_map[15], -520);
    assert_eq!(types(&p, 13, 14), vec![0, 10]);
    assert_eq!(types(&p, 14, 15), vec![0, 10]);
    assert_eq!(p.pos_relation[15].relation_map[13], 0);
}

#[test]
fn twist_and_bad_roll_in() {
    let p = penalty_of(20, 7, 2);
    assert_eq!(p.penalties[4].total, 300);
    assert_eq!(p.penalties[12].total, 700);
    assert_eq!(p.penalties[16].total, 300);
    assert_eq!(p.penalties[10].total, -300);
    assert_eq!(p.bad_score_total, 1472);
    assert_eq!(p.good_score_total, -300);
    assert_eq!(p.total, 1172);
    assert_eq!(p.pos_pen[2], 500);
    assert_eq!(p.pos_pen[7], 1012);
    assert_eq!(p.pos_pen[20], 1360);
    assert_eq!(p.pos_relation[20].relation_map[7], 1660);
    assert_eq!(types(&p, 20, 7), vec![0, 4, 16, 12]);
    assert_eq!(types(&p, 7, 2), vec![0, 10, 12]);
}

#[test]
fn pinky_ring_twist_and_alternation() {
    let p = penalty_of(12, 13, 16);
    assert_eq!(p.hands, [2, 1]);
    assert_eq!(p.penalties[5].total, 500);
    assert_eq!(p.penalties[8].times, 1);
    assert_eq!(p.penalties[8].total, -10);
    assert_eq!(p.total, -34);
    assert_eq!(p.pos_pen[12], -90);
    assert_eq!(p.pos_pen[13], -154);
    assert_eq!(p.pos_pen[16], 50);
    assert_eq!(p.pos_relation[13].relation_map[16], 320);
    assert_eq!(types(&p, 12, 13), vec![0, 5, 10]);
    assert_eq!(types(&p, 13, 16), vec![0, 8]);
}

#[test]
fn same_finger_trigram_with_sandwich() {
    let p = penalty_of(1, 7, 22);
    assert_eq!(p.fingers, [0, 0, 3, 0, 0, 0, 0, 0, 0, 0]);
    assert_eq!(p.penalties[1].times, 2);
    assert_eq!(p.penalties[1].total, 2000);
    assert_eq!(p.penalties[6].total, 200);
    assert_eq!(p.penalties[11].total, 300);
    assert_eq!(p.penalties[15].total, 500);
    assert_eq!(p.total, 3117);
    assert_eq!(p.pos_pen[1], 2085);
    assert_eq!(p.pos_pen[7], 3012);
    assert_eq!(p.pos_pen[22], 2020);
    assert_eq!(p.pos_relation[1].relation_map[7], 2485);
    assert_eq!(types(&p, 1, 7), vec![0, 1, 6, 15, 11]);
    let q = penalty_of(15, 8, 2);
    assert_eq!(q.total, 3145);
    assert_eq!(q.pos_relation[8].relation_map[2], 2625);
}

#[test]
fn hand_change_without_bad_swap() {
    let p = penalty_of(19, 3, 12);
    assert_eq!(p.hands, [1, 2]);
    assert_eq!(p.penalties[20].times, 0);
    assert_eq!(p.penalties[16].total, 300);
    assert_eq!(p.total, 810);
    assert_eq!(types(&p, 19, 3), vec![0, 4, 16]);
    assert_eq!(types(&p, 3, 12), vec![0, 8]);
}

#[test]
fn bad_hand_swap_charges_first_move() {
    // left, right, right
    let p = penalty_of(13, 17, 18);
    assert_eq!(p.penalties[20].times, 1);
    assert_eq!(p.penalties[20].total, 500);
    assert_eq!(types(&p, 13, 17), vec![0, 8, 20]);
}

#[test]
fn percent_difference_orders() {
    assert_eq!(accepted_percent_difference(110, 100, 5), Ordering::Greater);
    assert_eq!(accepted_percent_difference(104, 100, 5), Ordering::Less);
    assert_eq!(accepted_percent_difference(0, 0, 5), Ordering::Equal);
    assert_eq!(accepted_percent_difference(5, -5, 5), Ordering::Greater);
    assert!(less_than_or_equal(100, 104, 5));
    assert!(!less_than_or_equal(200, 100, 5));
}

#[test]
fn orderings_chain() {
    assert_eq!(chain_ordering(Some(Ordering::Equal), Some(Ordering::Less)), Ordering::Less);
    assert_eq!(chain_ordering(Some(Ordering::Greater), Some(Ordering::Less)), Ordering::Greater);
    assert_eq!(chain_ordering(None, Some(Ordering::Less)), Ordering::Equal);
    assert_eq!(chain_partial_ordering(Some(Ordering::Equal), None), None);
    assert_eq!(chain_partial_ordering(None, Some(Ordering::Less)), None);
}

#[test]
fn better_than_other_needs_every_category() {
    let good = penalty_of(13, 14, 15);
    let bad = penalty_of(1, 7, 22);
    assert!(!better_than_other(&good, &bad));
    assert!(!better_than_other(&bad, &good));
}

#[test]
fn penalty_comparisons() {
    let good = penalty_of(13, 14, 15);
    let bad = penalty_of(1, 7, 22);
    assert!(!better_than_average_including_bad(&good, &bad));
    assert!(!better_than_average_including_bad(&bad, &good));
    assert!(secondary_compare(&good, &bad));
    assert_eq!(difference_ordering(110, 100), Some(Ordering::Greater));
    assert_eq!(difference_ordering(102, 100), Some(Ordering::Less));
    assert_eq!(above_average_ordering(&good, &bad), Some(Ordering::Less));
    assert_eq!(above_average_ordering(&bad, &good), Some(Ordering::Greater));
    let layout = get_empty_layout();
    let first = BestLayoutsEntry { layout, penalty: penalty_of(13, 14, 15) };
    let second = BestLayoutsEntry { layout, penalty: penalty_of(1, 7, 22) };
    assert_eq!(compare_entries(&first, &second), Ordering::Less);
    assert_eq!(compare_entries(&second, &first), Ordering::Greater);
    assert_eq!(compare_entries(&first, &first), Ordering::Equal);
}

fn get_empty_layout() -> keygen::layout::Layout {
    keygen::layout::Layout::from_lower_string("")
}

#[test]
fn logging_keeps_total_as_bad_plus_good() {
    let mut p = Penalty::new();
    let steps: [(usize, i64, usize); 5] = [(0, 250, 3), (8, -75, 2), (3, 0, 9), (8, -10, 1), (12, 1000, 0)];
    for (i, amount, count) in steps {
        log_penalty(i, amount, &count, &mut p);
        assert_eq!(p.total, p.bad_score_total + p.good_score_total);
        assert!(p.good_score_total <= 0 && 0 <= p.bad_score_total);
    }
    assert_eq!(p.bad_score_total, 750);
    assert_eq!(p.good_score_total, -160);
    assert_eq!(p.penalties[3].times, 0);
    assert_eq!(p.penalties[8].times, 3);
    assert_eq!(p.penalties[8].total, -160);
}
