use keygen::layout::{base_layout, Finger, Layout};
use keygen::penalty::{
    best_entries, calculate_penalty, is_roll_in, is_roll_in2, is_roll_out, is_roll_out2, keep_best_layouts,
    evaluate_layout_strings, penalty_if_typeable, search_layouts, search_step, BestLayoutsEntry, Penalty,
};

fn trigram(s: &str, count: usize) -> (Vec<char>, usize) {
    (s.chars().collect(), count)
}

#[test]
fn new_penalty_is_empty_and_named() {
    let p = Penalty::new();
    assert_eq!(p.penalties.len(), 16);
    assert_eq!(p.penalties[0].name, "Base");
    assert_eq!(p.penalties[15].name, "same finger trigram");
    assert!(!p.penalties[13].show);
    assert!(p.penalties.iter().all(|k| k.times == 0 && k.total == 0));
    assert_eq!(p.total, 0);
    assert_eq!(p.len, 0);
}

#[test]
fn alternating_trigram() {
    // t (left ring), h (right middle), e (left ring) on the reference layout
    let layout = base_layout();
    let entry = calculate_penalty(&vec![trigram("the", 2)], &layout);
    let p = &entry.penalty;
    assert_eq!(p.len, 6);
    assert_eq!(p.hands, [4, 2]);
    assert_eq!(p.fingers[1], 4);
    assert_eq!(p.fingers[7], 2);
    assert_eq!(p.pos[13], 2);
    assert_eq!(p.pos[4], 2);
    assert_eq!(p.pos[6], 2);
    // base: (1 + 16 + 2) tenths per trigram
    assert_eq!(p.penalties[0].times, 6);
    assert_eq!(p.penalties[0].total, 38);
    // two alternations of -0.4 per trigram
    assert_eq!(p.penalties[8].times, 4);
    assert_eq!(p.penalties[8].total, -16);
    assert_eq!(p.total, 22);
    assert_eq!(p.pos_pen[13], -3);
    assert_eq!(p.pos_pen[4], 8);
    assert_eq!(p.pos_pen[6], -2);
    let sum: i64 = p.penalties.iter().map(|k| k.total).sum();
    assert_eq!(sum, p.total);
}

#[test]
fn same_finger_and_long_jump() {
    // f (top, left ring) then k (bottom, left pinky) then d (middle bottom, left pinky)
    let layout = base_layout();
    let entry = calculate_penalty(&vec![trigram("fkd", 1)], &layout);
    let p = &entry.penalty;
    assert_eq!(p.len, 3);
    assert_eq!(p.hands, [3, 0]);
    // f: Top ring, k: Bottom pinky -> long jump hand (5.0), long jump consecutive (8.0),
    // ring twist into pinky bottom (10.0), roll out across three rows (16.0), roll in (4.0)
    assert_eq!(p.penalties[2].total, 50);
    assert_eq!(p.penalties[4].total, 80);
    assert_eq!(p.penalties[5].total, 100);
    // k -> d: same finger on different keys (15.0), one row: roll rules need a rank increase
    assert_eq!(p.penalties[1].total, 150);
    assert_eq!(p.penalties[1].times, 1);
    let sum: i64 = p.penalties.iter().map(|k| k.total).sum();
    assert_eq!(sum, p.total);
    assert_eq!(p.fingers.iter().sum::<usize>(), p.len);
    assert_eq!(p.pos.iter().sum::<usize>(), p.len);
}

#[test]
fn counts_scale_amounts() {
    let layout = Layout::from_lower_string("abcdefghijklmnopqrstuvwxyz");
    let once = calculate_penalty(&vec![trigram("abc", 1), trigram("xyz", 1)], &layout);
    let thrice = calculate_penalty(&vec![trigram("abc", 3), trigram("xyz", 3)], &layout);
    assert_eq!(thrice.penalty.total, 3 * once.penalty.total);
    assert_eq!(thrice.penalty.len, 3 * once.penalty.len);
    for i in 0..16 {
        assert_eq!(thrice.penalty.penalties[i].total, 3 * once.penalty.penalties[i].total);
        assert_eq!(thrice.penalty.penalties[i].times, 3 * once.penalty.penalties[i].times);
    }
    // key penalties are not weighted by the counts
    assert_eq!(thrice.penalty.pos_pen, once.penalty.pos_pen);
}

#[test]
fn roll_predicates() {
    assert!(is_roll_out(Finger::Index, Finger::Middle));
    assert!(!is_roll_out(Finger::Ring, Finger::Middle));
    assert!(is_roll_out(Finger::ThumbBottom, Finger::Pinky));
    assert!(!is_roll_out(Finger::Thumb, Finger::Pinky));
    assert!(is_roll_in(Finger::Pinky, Finger::Index));
    assert!(!is_roll_in(Finger::Thumb, Finger::Index));
    assert!(!is_roll_in(Finger::Index, Finger::Ring));
    assert!(is_roll_out2(Finger::Thumb, Finger::Index));
    assert!(!is_roll_out2(Finger::Ring, Finger::Ring));
    assert!(is_roll_in2(Finger::Pinky, Finger::Ring));
    assert!(is_roll_in2(Finger::Index, Finger::Thumb));
    assert!(!is_roll_in2(Finger::Ring, Finger::Pinky));
}

fn entry_with_total(layout_text: &str, total: i64) -> BestLayoutsEntry {
    let mut entry = calculate_penalty(&Vec::new(), &Layout::from_lower_string(layout_text));
    entry.penalty.total = total;
    entry
}

#[test]
fn untypeable_entries_give_no_penalty() {
    let layout = base_layout();
    assert!(penalty_if_typeable(&vec![trigram("the", 2)], &layout).is_some());
    assert!(penalty_if_typeable(&vec![trigram("th", 2)], &layout).is_none());
    assert!(penalty_if_typeable(&vec![trigram("t\u{e9}e", 2)], &layout).is_none());
    assert!(penalty_if_typeable(&vec![trigram("the", usize::MAX)], &layout).is_none());
    let checked = penalty_if_typeable(&vec![trigram("the", 2)], &layout).unwrap();
    assert_eq!(checked.penalty.total, calculate_penalty(&vec![trigram("the", 2)], &layout).penalty.total);
}

#[test]
fn best_entries_are_lowest_first() {
    let entries = vec![
        entry_with_total("abc", 30),
        entry_with_total("bcd", 10),
        entry_with_total("cde", 20),
        entry_with_total("def", 10),
    ];
    let best = best_entries(entries, 3);
    let totals: Vec<i64> = best.iter().map(|e| e.penalty.total).collect();
    assert_eq!(totals, vec![10, 10, 20]);
    // equal totals keep their order
    assert_eq!(best[0].layout.0.key(0), 'b');
    assert_eq!(best[1].layout.0.key(0), 'd');
    let all = best_entries(vec![entry_with_total("abc", 5)], 10);
    assert_eq!(all.len(), 1);
}

#[test]
fn kept_layouts_skip_the_start_layout() {
    let start = Layout::from_lower_string("abc");
    let kept = keep_best_layouts(
        vec![entry_with_total("xyz", 50)],
        vec![entry_with_total("abc", 1), entry_with_total("bca", 40), entry_with_total("cab", 60)],
        &start,
        2,
    );
    let totals: Vec<i64> = kept.iter().map(|e| e.penalty.total).collect();
    assert_eq!(totals, vec![40, 50]);
}

#[test]
fn search_never_gets_worse() {
    let layout = base_layout();
    let entries = vec![trigram("the", 3), trigram("and", 2), trigram("ing", 1)];
    let start = calculate_penalty(&entries, &layout);
    let start_total = start.penalty.total;
    let (accepted, best) = search_layouts(&entries, start.clone(), start, 200, 3);
    assert!(best.penalty.total <= accepted.penalty.total);
    assert!(accepted.penalty.total <= start_total);
    for found in [&accepted, &best] {
        assert_eq!(calculate_penalty(&entries, &found.layout).penalty.total, found.penalty.total);
        let mut before: Vec<char> = layout.0.to_string().chars().collect();
        let mut after: Vec<char> = found.layout.0.to_string().chars().collect();
        before.sort();
        after.sort();
        assert_eq!(before, after);
    }
}

#[test]
fn layout_strings_are_evaluated_in_order() {
    let entries = vec![trigram("the", 2)];
    let texts = vec!["theabc".to_string(), "eht".to_string()];
    let evaluated = evaluate_layout_strings(&entries, &texts).unwrap();
    assert_eq!(evaluated.len(), 2);
    for (entry, text) in evaluated.iter().zip(texts.iter()) {
        let layout = Layout::from_lower_string(text);
        assert_eq!(entry.layout.0.to_string(), layout.0.to_string());
        assert_eq!(entry.penalty.total, calculate_penalty(&entries, &layout).penalty.total);
    }
    assert!(evaluate_layout_strings(&entries, &vec!["abc".to_string()]).is_none());
}

#[test]
fn search_step_keeps_only_lower_totals() {
    let entries = vec![trigram("the", 3)];
    let candidate = base_layout();
    let candidate_total = calculate_penalty(&entries, &candidate).penalty.total;
    // a candidate below both totals replaces both
    let (accepted, best) = search_step(
        &entries,
        entry_with_total("abc", candidate_total + 5),
        entry_with_total("abd", candidate_total + 1),
        &candidate,
    );
    assert_eq!(accepted.penalty.total, candidate_total);
    assert_eq!(best.penalty.total, candidate_total);
    assert_eq!(accepted.layout.0.to_string(), candidate.0.to_string());
    assert_eq!(best.layout.0.to_string(), candidate.0.to_string());
    // below the accepted total only: the best stays
    let (accepted, best) = search_step(
        &entries,
        entry_with_total("abc", candidate_total + 5),
        entry_with_total("abd", candidate_total - 1),
        &candidate,
    );
    assert_eq!(accepted.penalty.total, candidate_total);
    assert_eq!(best.penalty.total, candidate_total - 1);
    assert_eq!(best.layout.0.key(2), 'd');
    // an equal total is not lower: both stay
    let (accepted, best) = search_step(
        &entries,
        entry_with_total("abc", candidate_total),
        entry_with_total("abd", candidate_total),
        &candidate,
    );
    assert_eq!(accepted.layout.0.key(2), 'c');
    assert_eq!(best.layout.0.key(2), 'd');
    // a candidate on which the entries cannot be typed changes nothing
    let (accepted, best) = search_step(
        &entries,
        entry_with_total("abc", i64::MAX),
        entry_with_total("abd", i64::MAX),
        &Layout::from_lower_string("abc"),
    );
    assert_eq!(accepted.penalty.total, i64::MAX);
    assert_eq!(best.penalty.total, i64::MAX);
    assert_eq!(accepted.layout.0.key(2), 'c');
}

#[test]
fn search_without_cycles_returns_its_inputs() {
    let entries = vec![trigram("the", 3)];
    let (accepted, best) = search_layouts(&entries, entry_with_total("abc", 7), entry_with_total("abd", 5), 0, 3);
    assert_eq!(accepted.penalty.total, 7);
    assert_eq!(best.penalty.total, 5);
    assert_eq!(accepted.layout.0.key(2), 'c');
    assert_eq!(best.layout.0.key(2), 'd');
}
