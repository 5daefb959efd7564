use keygen::corpus_manager::NgramList;
use keygen::evaluator::{refine_evaluation, tri_pos};
use keygen::evaluator_penalty::{calculate_position_penalty, DisplayPosRelation, Penalty};
use keygen::layout::get_empty_position_map;
use keygen::positions::{merge_position_relations, move_totals, tri_permutation_penalties, TRIPLE_COUNT};
use keygen::text::{decimal_digits, parse_usize};

fn penalty_of(a: usize, b: usize, c: usize) -> Penalty {
    let map = get_empty_position_map();
    calculate_position_penalty(map.get_key_position(a), map.get_key_position(b), map.get_key_position(c))
}

fn types(p: &Penalty, from: usize, to: usize) -> Vec<usize> {
    p.pos_relation[from].penalty_types[to].type_map.iter().copied().filter(|t| *t != usize::MAX).collect()
}

#[test]
fn merging_one_trigram_keeps_its_moves() {
    let p = penalty_of(13, 14, 15);
    let merged = merge_position_relations(&vec![p]);
    assert_eq!(merged.len(), 36);
    assert_eq!(merged[13].relation_map[14], -590);
    assert_eq!(merged[14].relation_map[15], -520);
    assert_eq!(merged[15].relation_map[13], 0);
    // the new rules of an item fill the free slots last first
    assert_eq!(merged[13].penalty_types[14], vec![10, 0]);
    assert!(merged[15].penalty_types[13].is_empty());
}

#[test]
fn merging_sums_amounts_and_keeps_rules_once() {
    let p = penalty_of(13, 14, 15);
    let q = penalty_of(13, 14, 15);
    let merged = merge_position_relations(&vec![p, q]);
    assert_eq!(merged[13].relation_map[14], -1180);
    assert_eq!(merged[13].penalty_types[14], vec![10, 0]);
}

#[test]
fn merging_appends_new_rules_of_later_items() {
    let swap = penalty_of(13, 17, 18);
    let plain = penalty_of(13, 17, 12);
    assert_eq!(types(&swap, 13, 17), vec![0, 8, 20]);
    assert_eq!(types(&plain, 13, 17), vec![0, 8]);
    let swap_amount = swap.pos_relation[13].relation_map[17] as i128;
    let plain_amount = plain.pos_relation[13].relation_map[17] as i128;
    let first_plain = merge_position_relations(&vec![penalty_of(13, 17, 12), penalty_of(13, 17, 18)]);
    assert_eq!(first_plain[13].penalty_types[17], vec![8, 0, 20]);
    assert_eq!(first_plain[13].relation_map[17], swap_amount + plain_amount);
    let first_swap = merge_position_relations(&vec![penalty_of(13, 17, 18), penalty_of(13, 17, 12)]);
    assert_eq!(first_swap[13].penalty_types[17], vec![20, 8, 0]);
}

#[test]
fn merging_nothing_gives_empty_moves() {
    let merged = merge_position_relations(&Vec::new());
    assert_eq!(merged.len(), 36);
    assert!(merged.iter().all(|r| r.relation_map.iter().all(|x| *x == 0)));
    assert!(merged.iter().all(|r| r.penalty_types.iter().all(|t| t.is_empty())));
}

fn sample_relations() -> Vec<DisplayPosRelation> {
    (0..36)
        .map(|p| DisplayPosRelation {
            relation_map: (0..36).map(|q| (p * 100 + q) as i128).collect(),
            penalty_types: vec![Vec::new(); 36],
        })
        .collect()
}

#[test]
fn triples_come_in_lexicographic_order() {
    let weighed = tri_permutation_penalties(&sample_relations());
    assert_eq!(weighed.len(), TRIPLE_COUNT);
    assert_eq!(weighed[0], (tri_pos { p1: 0, p2: 1, p3: 2 }, 103));
    assert_eq!(weighed[1], (tri_pos { p1: 0, p2: 1, p3: 3 }, 104));
    assert_eq!(weighed[34], (tri_pos { p1: 0, p2: 2, p3: 1 }, 203));
    assert_eq!(weighed[1190], (tri_pos { p1: 1, p2: 0, p3: 2 }, 102));
    assert_eq!(weighed[TRIPLE_COUNT - 1], (tri_pos { p1: 35, p2: 34, p3: 33 }, 6967));
    for w in weighed.windows(2) {
        let a = (w[0].0.p1, w[0].0.p2, w[0].0.p3);
        let b = (w[1].0.p1, w[1].0.p2, w[1].0.p3);
        assert!(a < b);
    }
}

#[test]
fn refining_keeps_no_layout() {
    let list = NgramList::new();
    let r = refine_evaluation(&list, &String::from("layouts"), &String::from(".json"));
    assert!(r.is_empty());
}

#[test]
fn decimal_form_reads_back() {
    for n in [0usize, 7, 10, 99, 12345, usize::MAX] {
        let digits = decimal_digits(n);
        assert_eq!(digits.iter().collect::<String>(), n.to_string());
        assert_eq!(parse_usize(&digits), Some(n));
    }
}

#[test]
fn merged_amounts_add_up_over_lists() {
    let both = merge_position_relations(&vec![penalty_of(13, 17, 18), penalty_of(20, 7, 2), penalty_of(13, 14, 15)]);
    let first = merge_position_relations(&vec![penalty_of(13, 17, 18)]);
    let rest = merge_position_relations(&vec![penalty_of(20, 7, 2), penalty_of(13, 14, 15)]);
    for p in 0..36 {
        for q in 0..36 {
            assert_eq!(both[p].relation_map[q], first[p].relation_map[q] + rest[p].relation_map[q]);
        }
    }
}

#[test]
fn moves_are_totalled_by_start_and_end() {
    let relations = sample_relations();
    let list = vec![
        (tri_pos { p1: 0, p2: 1, p3: 2 }, 103),
        (tri_pos { p1: 2, p2: 1, p3: 0 }, 301),
    ];
    let (from, to) = move_totals(&list, &relations);
    // moves 0->1 (1), 1->2 (102), 2->1 (201), 1->0 (100)
    assert_eq!(from[0], 1);
    assert_eq!(from[1], 202);
    assert_eq!(from[2], 201);
    assert_eq!(to[1], 202);
    assert_eq!(to[2], 102);
    assert_eq!(to[0], 100);
    assert_eq!(from[3], 0);
}
