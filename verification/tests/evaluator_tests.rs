use keygen::corpus_manager::NgramList;
use keygen::evaluator::{
    arrange_groups, assign_frequencies, choice_filename, combination_layout, group_key_positions,
    frequency_arrangements, key_frequency_list, layouts_for_choice, position_groups, sort_by_frequency, split_biggest, KeyFrequency,
    KeyPosition, PositionGroup,
};

fn kf(key: char, frequency: usize) -> KeyFrequency {
    KeyFrequency { key: key as u8, frequency }
}

#[test]
fn letter_frequencies_skip_e_and_t() {
    let mut list = NgramList::new();
    list.add_sized("the".to_string(), 5);
    list.add_sized("ab".to_string(), 2);
    let freqs = key_frequency_list(&list);
    assert_eq!(freqs, vec![kf('h', 5), kf('a', 2), kf('b', 2)]);
}

#[test]
fn sort_is_descending_and_stable() {
    let list = vec![kf('a', 1), kf('b', 3), kf('c', 1), kf('d', 3), kf('e', 2)];
    let sorted = sort_by_frequency(&list);
    assert_eq!(sorted, vec![kf('b', 3), kf('d', 3), kf('e', 2), kf('a', 1), kf('c', 1)]);
}

#[test]
fn groups_follow_base_penalty() {
    let groups = position_groups();
    let positions: Vec<Vec<u32>> = groups.iter().map(|g| g.positions.clone()).collect();
    assert_eq!(
        positions,
        vec![
            vec![13, 14, 17, 18],
            vec![6, 7, 10, 11],
            vec![15, 16],
            vec![21, 26],
            vec![8, 9, 23, 24],
            vec![12, 19, 20, 27],
            vec![0, 1, 4, 5],
        ]
    );
    assert!(groups.iter().enumerate().all(|(k, g)| g.index as usize == k && g.count == g.positions.len()));
    assert_eq!(groups.iter().map(|g| g.count).sum::<usize>(), 24);
}

#[test]
fn groups_take_letters_in_turn() {
    let groups = vec![
        PositionGroup { positions: vec![1, 2], count: 2, index: 0 },
        PositionGroup { positions: vec![3], count: 1, index: 1 },
    ];
    let sorted = vec![kf('a', 9), kf('b', 8), kf('c', 7), kf('d', 6)];
    let assigned = assign_frequencies(&groups, &sorted);
    assert_eq!(assigned, vec![vec![kf('a', 9), kf('b', 8)], vec![kf('c', 7)]]);
}

#[test]
fn arrangements_are_distinct_permutations() {
    let group = PositionGroup { positions: vec![4, 5, 6], count: 3, index: 0 };
    let letters = vec![kf('a', 2), kf('b', 1), kf('a', 2)];
    let arranged = group_key_positions(&group, &letters);
    let keys: Vec<String> = arranged.iter().map(|a| a.iter().map(|kp| kp.key as char).collect()).collect();
    assert_eq!(keys, vec!["aba", "aab", "baa"]);
    assert!(arranged.iter().all(|a| a.iter().map(|kp| kp.position).collect::<Vec<u32>>() == vec![4, 5, 6]));
}

#[test]
fn biggest_group_is_split_off() {
    let groups = vec![
        PositionGroup { positions: vec![1, 2], count: 2, index: 0 },
        PositionGroup { positions: vec![3], count: 1, index: 1 },
        PositionGroup { positions: vec![7, 8], count: 2, index: 2 },
    ];
    let letters = vec![vec![kf('a', 3), kf('b', 3)], vec![kf('c', 2)], vec![kf('d', 1), kf('f', 1)]];
    let arranged = arrange_groups(&groups, &letters);
    assert_eq!(arranged.iter().map(|g| g.len()).collect::<Vec<usize>>(), vec![2, 1, 2]);
    let (rest, biggest) = split_biggest(arranged);
    assert_eq!(rest.len(), 2);
    assert_eq!(rest[0].len(), 1);
    assert_eq!(rest[1][0][0], KeyPosition { key: b'a', position: 1 });
    assert_eq!(biggest[0][0], KeyPosition { key: b'd', position: 7 });
}

#[test]
fn combination_layout_places_letters() {
    let layout = combination_layout(&vec![vec![(b'a', 0), (b'b', 1)], vec![(b'z', 0)]]);
    let expected: String = "zb                             e  t\n".to_string();
    assert_eq!(layout, expected);
    assert_eq!(layout.chars().count(), 36);
}

#[test]
fn filename_joins_letters() {
    let choice = vec![KeyPosition { key: b'x', position: 0 }, KeyPosition { key: b'y', position: 1 }];
    assert_eq!(choice_filename(&choice), "x_y");
    assert_eq!(choice_filename(&vec![]), "");
}

#[test]
fn layouts_cover_every_combination() {
    let rest = vec![vec![
        vec![KeyPosition { key: b'a', position: 0 }],
        vec![KeyPosition { key: b'b', position: 0 }],
    ]];
    let choice = vec![KeyPosition { key: b'c', position: 1 }];
    let layouts = layouts_for_choice(&rest, &choice);
    assert_eq!(layouts.len(), 2);
    assert!(layouts[0].starts_with("ac"));
    assert!(layouts[1].starts_with("bc"));
}

#[test]
fn whole_list_arrangements_split_off_the_last_biggest_group() {
    let mut list = NgramList::new();
    list.add_sized("abcdfghijklmnopqrsuvwxyz".to_string(), 5);
    list.add_sized("q".to_string(), 1);
    let (rest, biggest) = frequency_arrangements(&list);
    let sizes: Vec<usize> = rest.iter().map(|g| g.len()).collect();
    assert_eq!(sizes, vec![2, 2, 24, 24, 24, 24]);
    assert_eq!(biggest.len(), 24);
    let first: Vec<(char, u32)> = biggest[0].iter().map(|kp| (kp.key as char, kp.position)).collect();
    assert_eq!(first, vec![('w', 0), ('x', 1), ('y', 4), ('z', 5)]);
    let pair: Vec<(char, u32)> = rest[0][0].iter().map(|kp| (kp.key as char, kp.position)).collect();
    assert_eq!(pair, vec![('j', 15), ('k', 16)]);
}

#[test]
fn arranged_layouts_keep_e_t_and_newline() {
    let mut list = NgramList::new();
    list.add_sized("abcdfghijklmnopqrsuvwxyz".to_string(), 5);
    list.add_sized("q".to_string(), 1);
    let (rest, biggest) = frequency_arrangements(&list);
    let small: Vec<Vec<Vec<KeyPosition>>> = rest[..2].to_vec();
    let layouts = layouts_for_choice(&small, &biggest[0]);
    assert_eq!(layouts.len(), 4);
    for layout in &layouts {
        let keys: Vec<char> = layout.chars().collect();
        assert_eq!(keys.len(), 36);
        assert_eq!(keys[31], 'e');
        assert_eq!(keys[34], 't');
        assert_eq!(keys[35], '\n');
        for letter in ['j', 'k', 'w', 'x', 'y', 'z'] {
            assert!(keys.contains(&letter));
        }
    }
    // no arrangement uses a key outside the letter keys
    for group in rest.iter().chain(std::iter::once(&biggest)) {
        for arrangement in group {
            for kp in arrangement {
                assert!(kp.position < 28);
            }
        }
    }
}

#[test]
fn frequent_letters_go_on_cheap_keys() {
    let letters = "abcdfghijklmnopqrsuvwxyz";
    let mut list = NgramList::new();
    for (i, c) in letters.chars().enumerate() {
        list.add_sized(c.to_string(), 100 - i);
    }
    let count = |c: char| 100 - letters.find(c).unwrap();
    let (rest, biggest) = frequency_arrangements(&list);
    let penalties = keygen::penalty::base_penalty_map();
    for choice in biggest.iter().take(3) {
        let small: Vec<Vec<Vec<KeyPosition>>> = rest[..2].to_vec();
        for layout in layouts_for_choice(&small, choice) {
            let keys: Vec<char> = layout.chars().collect();
            let filled: Vec<usize> = (0..28).filter(|&p| keys[p] != ' ').collect();
            assert_eq!(filled.len(), 2 + 2 + 4);
            for &p in &filled {
                for &q in &filled {
                    if penalties[p] < penalties[q] {
                        assert!(count(keys[p]) > count(keys[q]));
                    }
                }
            }
        }
    }
}
