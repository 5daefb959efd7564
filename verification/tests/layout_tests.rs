use keygen::layout::{
    base_layout, get_empty_position_map, Finger, Hand, Layer, LayerKeys, Layout, Row, NUM_OF_KEYS,
};

fn keys_of(s: &str) -> [char; NUM_OF_KEYS] {
    let mut keys = ['\0'; NUM_OF_KEYS];
    for (i, c) in s.chars().enumerate().take(NUM_OF_KEYS) {
        keys[i] = c;
    }
    keys
}

#[test]
fn finger_and_row_index() {
    assert_eq!(Finger::Index.index(), 1);
    assert_eq!(Finger::Middle.index(), 2);
    assert_eq!(Finger::Ring.index(), 3);
    assert_eq!(Finger::Pinky.index(), 4);
    assert_eq!(Finger::Thumb.index(), 0);
    assert_eq!(Finger::ThumbBottom.index(), 0);
    assert_eq!(Row::Top.index(), 0);
    assert_eq!(Row::Thumb.index(), 4);
}

#[test]
fn row_difference_is_row_distance() {
    assert_eq!(Row::Bottom.difference(Row::Top), 3);
    assert_eq!(Row::Top.difference(Row::Bottom), 3);
    assert_eq!(Row::MiddleBottom.difference(Row::MiddleTop), 1);
    assert_eq!(Row::MiddleTop.difference(Row::Bottom), 2);
    assert_eq!(Row::Top.difference(Row::Top), 0);
    assert_eq!(Row::Thumb.difference(Row::Top), 0);
    assert_eq!(Row::Bottom.difference(Row::Thumb), 0);
}

#[test]
fn from_string_reads_both_layers() {
    let mut text = String::new();
    for i in 0..80u32 {
        text.push(char::from_u32(48 + (i % 40)).unwrap());
    }
    let layout = Layout::from_string(&text);
    let lower = layout.get_character_positions();
    assert_eq!(lower[0], '0');
    assert_eq!(lower[35], 'S');
    assert_eq!(layout.1.key(0), '0');
    assert_eq!(layout.1.key(1), '1');
}

#[test]
fn from_string_pads_with_nul() {
    let layout = Layout::from_string("abc");
    assert_eq!(layout.0.key(0), 'a');
    assert_eq!(layout.0.key(2), 'c');
    assert_eq!(layout.0.key(3), '\0');
    assert_eq!(layout.1.key(0), '\0');
}

#[test]
fn from_lower_string_uppercases() {
    let layout = Layout::from_lower_string("aty### beqxvuikhgmdw#cj##lzpo#fns#r");
    assert_eq!(layout.0.key(0), 'a');
    assert_eq!(layout.1.key(0), 'A');
    assert_eq!(layout.0.key(6), ' ');
    assert_eq!(layout.1.key(6), ' ');
    assert_eq!(layout.1.key(3), '#');
    assert_eq!(layout.1.key(33), '#');
    assert_eq!(layout.1.key(34), 'R');
    assert_eq!(layout.1.key(35), '\0');
    let short = Layout::from_lower_string("q");
    assert_eq!(short.1.key(0), 'Q');
    assert_eq!(short.0.key(1), '\0');
    assert_eq!(short.1.key(1), '\0');
}

#[test]
fn layer_to_string_and_swap() {
    let mut layer = Layer::new(LayerKeys::new(keys_of("abcdefghijklmnopqrstuvwxyz0123456789")));
    assert_eq!(layer.to_string(), "abcdefghijklmnopqrstuvwxyz0123456789");
    layer.swap(0, 25);
    assert_eq!(layer.to_string(), "zbcdefghijklmnopqrstuvwxya0123456789");
    layer.swap(3, 3);
    assert_eq!(layer.key(3), 'd');
}

#[test]
fn shuffle_keeps_thumb_keys_and_characters() {
    let start = base_layout();
    for times in 0..20 {
        let mut layout = start;
        layout.shuffle(times);
        let mut before: Vec<char> = start.0.to_string().chars().collect();
        let mut after: Vec<char> = layout.0.to_string().chars().collect();
        for p in 28..NUM_OF_KEYS {
            assert_eq!(before[p], after[p]);
            assert_eq!(start.1.key(p), layout.1.key(p));
        }
        before.sort();
        after.sort();
        assert_eq!(before, after);
        for p in 0..NUM_OF_KEYS {
            let lower = layout.0.key(p);
            let upper = layout.1.key(p);
            assert!(upper == lower.to_ascii_uppercase() || (lower == ' ' && upper == ' '));
        }
    }
}

#[test]
fn shuffle_position_is_movable() {
    for _ in 0..200 {
        let (i, j) = Layout::shuffle_position();
        assert!(i < 28);
        assert!(j < 28);
    }
}

#[test]
fn position_map_finds_keys() {
    let layout = base_layout();
    let map = layout.get_position_map();
    let t = map.get_key_position('t').unwrap();
    assert_eq!(t.pos, 13);
    assert_eq!(t.kc, 't');
    assert_eq!(t.finger, Finger::Ring);
    assert_eq!(t.hand, Hand::Left);
    assert_eq!(t.row, Row::MiddleBottom);
    assert!(!t.center);
    let upper_t = map.get_key_position('T').unwrap();
    assert_eq!(upper_t.pos, 13);
    // the space is on several keys: the last one of the upper layer wins
    let space = map.get_key_position(' ').unwrap();
    assert_eq!(space.pos, 34);
    assert!(map.get_key_position('!').is_none());
    assert!(map.get_key_position('\0').is_none());
    assert!(map.get_key_position('é').is_none());
    let p = map.get_key_position('p').unwrap();
    assert!(p.center);
}

#[test]
fn empty_position_map_describes_board() {
    let map = get_empty_position_map();
    let k0 = map.get_key_position(0);
    assert_eq!(k0.pos, 0);
    assert_eq!(k0.finger, Finger::Ring);
    assert_eq!(k0.hand, Hand::Left);
    assert_eq!(k0.row, Row::Top);
    let k28 = map.get_key_position(28);
    assert_eq!(k28.finger, Finger::Thumb);
    assert_eq!(k28.row, Row::Thumb);
    let k35 = map.get_key_position(35);
    assert_eq!(k35.finger, Finger::ThumbBottom);
    assert_eq!(k35.hand, Hand::Right);
    let k16 = map.get_key_position(16);
    assert!(k16.center);
    assert_eq!(k16.hand, Hand::Right);
}

#[test]
fn board_text_draws_six_rows() {
    let layout = Layout::from_lower_string("abcdefghijklmnopqrstuvwxyz0123456789");
    let k: Vec<String> = "abcdefghijklmnopqrstuvwxyz0123456789".chars().map(|c| c.to_string()).collect();
    let e = String::new();
    let row = |c: [&String; 8]| {
        format!("{:<2} {:<2} {:<2} {:<2} | {:<2} {:<2} {:<2} {:<2}", c[0], c[1], c[2], c[3], c[4], c[5], c[6], c[7])
    };
    let expected = [
        row([&e, &k[0], &k[1], &k[2], &k[3], &k[4], &k[5], &e]),
        row([&e, &k[6], &k[7], &k[8], &k[9], &k[10], &k[11], &e]),
        row([&k[12], &k[13], &k[14], &k[15], &k[16], &k[17], &k[18], &k[19]]),
        row([&k[20], &k[21], &k[22], &k[23], &k[24], &k[25], &k[26], &k[27]]),
        row([&e, &e, &e, &k[28], &k[29], &e, &e, &e]),
        row([&e, &k[30], &k[31], &k[32], &k[33], &k[34], &k[35], &e]),
    ]
    .join("\n");
    assert_eq!(layout.0.board_text(), expected);
}
