//! Keyboard layouts: the physical key grid, the two layers of characters,
//! and the operations that build, inspect and shuffle them.
//!
//! Key positions (left hand | right hand):
//!
//! ```text
//!     0  1  2  | 3  4  5
//!     6  7  8  | 9  10 11
//! 12 13 14 15  | 16 17 18 19
//! 20 21 22 23  | 24 25 26 27
//!           28 | 29            (thumb keys)
//!     30 31 32 | 33 34 35
//! ```
use vstd::prelude::*;
use crate::text::{chars_of, string_from_chars, char_uppercase_first, uppercase_first, ascii_upper};

verus! {

/// Number of physical keys on the board.
pub const NUM_OF_KEYS: usize = 36;

/// A finger of one hand.
#[derive(Clone, Copy, Debug, PartialEq, Eq, Structural)]
pub enum Finger {
    Index,
    Middle,
    Ring,
    Pinky,
    Thumb,
    ThumbBottom,
}

/// A hand.
#[derive(Clone, Copy, Debug, PartialEq, Eq, Structural)]
pub enum Hand {
    Left,
    Right,
}

/// A row of keys, from the top of the board to the thumb cluster.
#[derive(Clone, Copy, Debug, PartialEq, Eq, Structural)]
pub enum Row {
    Top,
    MiddleTop,
    MiddleBottom,
    Bottom,
    Thumb,
}

/// Rank of a finger counted from the index finger outwards; thumbs rank 0.
pub open spec fn finger_rank(f: Finger) -> nat {
    match f {
        Finger::Index => 1,
        Finger::Middle => 2,
        Finger::Ring => 3,
        Finger::Pinky => 4,
        _ => 0,
    }
}

/// Rank of a row counted from the top row downwards.
pub open spec fn row_rank(r: Row) -> nat {
    match r {
        Row::Top => 0,
        Row::MiddleTop => 1,
        Row::MiddleBottom => 2,
        Row::Bottom => 3,
        Row::Thumb => 4,
    }
}

/// Number of rows travelled between two rows; 0 when either is the thumb row.
pub open spec fn row_distance(a: Row, b: Row) -> nat {
    if a == Row::Thumb || b == Row::Thumb {
        0
    } else if row_rank(a) >= row_rank(b) {
        (row_rank(a) - row_rank(b)) as nat
    } else {
        (row_rank(b) - row_rank(a)) as nat
    }
}

impl Finger {
    pub fn index(&self) -> (r: usize)
        ensures
            r == finger_rank(*self),
    {
        match self {
            Finger::Index => 1,
            Finger::Middle => 2,
            Finger::Ring => 3,
            Finger::Pinky => 4,
            _ => 0,
        }
    }
}

impl Row {
    pub fn index(&self) -> (r: usize)
        ensures
            r == row_rank(*self),
    {
        match self {
            Row::Top => 0,
            Row::MiddleTop => 1,
            Row::MiddleBottom => 2,
            Row::Bottom => 3,
            Row::Thumb => 4,
        }
    }

    /// Number of rows between `prev_row` and this row (0 when a thumb row is involved).
    pub fn difference(&self, prev_row: Row) -> (r: usize)
        ensures
            r == row_distance(*self, prev_row),
    {
        match (self, prev_row) {
            (Row::Bottom, Row::Top) => 3,
            (Row::Bottom, Row::MiddleTop) => 2,
            (Row::Bottom, Row::MiddleBottom) => 1,
            (Row::Bottom, Row::Bottom) => 0,
            (Row::MiddleBottom, Row::Top) => 2,
            (Row::MiddleBottom, Row::MiddleTop) => 1,
            (Row::MiddleBottom, Row::MiddleBottom) => 0,
            (Row::MiddleBottom, Row::Bottom) => 1,
            (Row::MiddleTop, Row::Top) => 1,
            (Row::MiddleTop, Row::MiddleTop) => 0,
            (Row::MiddleTop, Row::MiddleBottom) => 1,
            (Row::MiddleTop, Row::Bottom) => 2,
            (Row::Top, Row::Top) => 0,
            (Row::Top, Row::MiddleTop) => 1,
            (Row::Top, Row::MiddleBottom) => 2,
            (Row::Top, Row::Bottom) => 3,
            _ => 0,
        }
    }
}

/* ------------------------------------------------------------------ *
 * The physical board                                                 *
 * ------------------------------------------------------------------ */

/// The finger that presses each key.
pub open spec fn key_fingers() -> Seq<Finger> {
    seq![
        Finger::Ring, Finger::Middle, Finger::Index, Finger::Index, Finger::Middle, Finger::Ring,
        Finger::Ring, Finger::Middle, Finger::Index, Finger::Index, Finger::Middle, Finger::Ring,
        Finger::Pinky, Finger::Ring, Finger::Middle, Finger::Index,
        Finger::Index, Finger::Middle, Finger::Ring, Finger::Pinky,
        Finger::Pinky, Finger::Ring, Finger::Middle, Finger::Index,
        Finger::Index, Finger::Middle, Finger::Ring, Finger::Pinky,
        Finger::Thumb, Finger::Thumb,
        Finger::ThumbBottom, Finger::ThumbBottom, Finger::Thumb,
        Finger::Thumb, Finger::ThumbBottom, Finger::ThumbBottom,
    ]
}

/// The hand that presses each key.
pub open spec fn key_hands() -> Seq<Hand> {
    seq![
        Hand::Left, Hand::Left, Hand::Left, Hand::Right, Hand::Right, Hand::Right,
        Hand::Left, Hand::Left, Hand::Left, Hand::Right, Hand::Right, Hand::Right,
        Hand::Left, Hand::Left, Hand::Left, Hand::Left, Hand::Right, Hand::Right, Hand::Right, Hand::Right,
        Hand::Left, Hand::Left, Hand::Left, Hand::Left, Hand::Right, Hand::Right, Hand::Right, Hand::Right,
        Hand::Left, Hand::Right,
        Hand::Left, Hand::Left, Hand::Left, Hand::Right, Hand::Right, Hand::Right,
    ]
}

/// The row of each key.
pub open spec fn key_rows() -> Seq<Row> {
    seq![
        Row::Top, Row::Top, Row::Top, Row::Top, Row::Top, Row::Top,
        Row::MiddleTop, Row::MiddleTop, Row::MiddleTop, Row::MiddleTop, Row::MiddleTop, Row::MiddleTop,
        Row::MiddleBottom, Row::MiddleBottom, Row::MiddleBottom, Row::MiddleBottom,
        Row::MiddleBottom, Row::MiddleBottom, Row::MiddleBottom, Row::MiddleBottom,
        Row::Bottom, Row::Bottom, Row::Bottom, Row::Bottom, Row::Bottom, Row::Bottom, Row::Bottom, Row::Bottom,
        Row::Thumb, Row::Thumb,
        Row::Thumb, Row::Thumb, Row::Thumb, Row::Thumb, Row::Thumb, Row::Thumb,
    ]
}

/// Whether each key lies in one of the two inner (centre) columns.
pub open spec fn key_center_column() -> Seq<bool> {
    seq![
        false, false, true, true, false, false,
        false, false, true, true, false, false,
        false, false, false, true, true, false, false, false,
        false, false, false, true, true, false, false, false,
        false, false,
        false, false, false, false, false, false,
    ]
}

/// Keys that a shuffle may move: every key but the thumb clusters.
pub open spec fn is_swappable(pos: int) -> bool {
    0 <= pos < 28
}

/// The finger of each key, as an array.
pub fn key_finger_map() -> (t: [Finger; NUM_OF_KEYS])
    ensures
        t@ == key_fingers(),
{
    let t = [
        Finger::Ring, Finger::Middle, Finger::Index, Finger::Index, Finger::Middle, Finger::Ring,
        Finger::Ring, Finger::Middle, Finger::Index, Finger::Index, Finger::Middle, Finger::Ring,
        Finger::Pinky, Finger::Ring, Finger::Middle, Finger::Index,
        Finger::Index, Finger::Middle, Finger::Ring, Finger::Pinky,
        Finger::Pinky, Finger::Ring, Finger::Middle, Finger::Index,
        Finger::Index, Finger::Middle, Finger::Ring, Finger::Pinky,
        Finger::Thumb, Finger::Thumb,
        Finger::ThumbBottom, Finger::ThumbBottom, Finger::Thumb,
        Finger::Thumb, Finger::ThumbBottom, Finger::ThumbBottom,
    ];
    assert(t@ =~= key_fingers());
    t
}

/// The hand of each key, as an array.
pub fn key_hand_map() -> (t: [Hand; NUM_OF_KEYS])
    ensures
        t@ == key_hands(),
{
    let t = [
        Hand::Left, Hand::Left, Hand::Left, Hand::Right, Hand::Right, Hand::Right,
        Hand::Left, Hand::Left, Hand::Left, Hand::Right, Hand::Right, Hand::Right,
        Hand::Left, Hand::Left, Hand::Left, Hand::Left, Hand::Right, Hand::Right, Hand::Right, Hand::Right,
        Hand::Left, Hand::Left, Hand::Left, Hand::Left, Hand::Right, Hand::Right, Hand::Right, Hand::Right,
        Hand::Left, Hand::Right,
        Hand::Left, Hand::Left, Hand::Left, Hand::Right, Hand::Right, Hand::Right,
    ];
    assert(t@ =~= key_hands());
    t
}

/// The row of each key, as an array.
pub fn key_row_map() -> (t: [Row; NUM_OF_KEYS])
    ensures
        t@ == key_rows(),
{
    let t = [
        Row::Top, Row::Top, Row::Top, Row::Top, Row::Top, Row::Top,
        Row::MiddleTop, Row::MiddleTop, Row::MiddleTop, Row::MiddleTop, Row::MiddleTop, Row::MiddleTop,
        Row::MiddleBottom, Row::MiddleBottom, Row::MiddleBottom, Row::MiddleBottom,
        Row::MiddleBottom, Row::MiddleBottom, Row::MiddleBottom, Row::MiddleBottom,
        Row::Bottom, Row::Bottom, Row::Bottom, Row::Bottom, Row::Bottom, Row::Bottom, Row::Bottom, Row::Bottom,
        Row::Thumb, Row::Thumb,
        Row::Thumb, Row::Thumb, Row::Thumb, Row::Thumb, Row::Thumb, Row::Thumb,
    ];
    assert(t@ =~= key_rows());
    t
}

/// The centre-column flag of each key, as an array.
pub fn key_center_map() -> (t: [bool; NUM_OF_KEYS])
    ensures
        t@ == key_center_column(),
{
    let t = [
        false, false, true, true, false, false,
        false, false, true, true, false, false,
        false, false, false, true, true, false, false, false,
        false, false, false, true, true, false, false, false,
        false, false,
        false, false, false, false, false, false,
    ];
    assert(t@ =~= key_center_column());
    t
}

/// Whether the key at `pos` may be moved by a shuffle.
pub fn swappable(pos: usize) -> (r: bool)
    requires
        pos < NUM_OF_KEYS,
    ensures
        r == is_swappable(pos as int),
{
    pos < 28
}


/* ------------------------------------------------------------------ *
 * Layers and layouts                                                 *
 * ------------------------------------------------------------------ */

/// The characters of one layer, one per key.
#[derive(Clone, Copy, Debug)]
pub struct LayerKeys {
    keys: [char; NUM_OF_KEYS],
}

impl View for LayerKeys {
    type V = Seq<char>;

    closed spec fn view(&self) -> Seq<char> {
        self.keys@
    }
}

impl LayerKeys {
    pub fn new(values: [char; NUM_OF_KEYS]) -> (r: LayerKeys)
        ensures
            r@ == values@,
    {
        LayerKeys { keys: values }
    }

    /// The character on key `index` (the `Index` operator of the type).
    pub fn get(&self, index: usize) -> (c: char)
        requires
            index < NUM_OF_KEYS,
        ensures
            c == self@[index as int],
    {
        self.keys[index]
    }

    /// Puts `c` on key `index` (the `IndexMut` operator of the type).
    pub fn set(&mut self, index: usize, c: char)
        requires
            index < NUM_OF_KEYS,
        ensures
            final(self)@ == old(self)@.update(index as int, c),
    {
        self.keys[index] = c;
    }

    /// The characters of the layer as an array.
    pub fn keys(&self) -> (r: [char; NUM_OF_KEYS])
        ensures
            r@ == self@,
    {
        self.keys
    }

    pub proof fn lemma_len(&self)
        ensures
            self@.len() == NUM_OF_KEYS,
    {
    }
}

/* ------------------------------------------------------------------ *
 * The board as text                                                  *
 * ------------------------------------------------------------------ */

/// The keys shown in each row of the printed board, left to right; `-1`
/// leaves a cell empty.
pub open spec fn board_cells() -> Seq<Seq<int>> {
    seq![
        seq![-1, 0, 1, 2, 3, 4, 5, -1],
        seq![-1, 6, 7, 8, 9, 10, 11, -1],
        seq![12, 13, 14, 15, 16, 17, 18, 19],
        seq![20, 21, 22, 23, 24, 25, 26, 27],
        seq![-1, -1, -1, 28, 29, -1, -1, -1],
        seq![-1, 30, 31, 32, 33, 34, 35, -1],
    ]
}

/// A cell: the character of key `k` and a space, or two spaces.
pub open spec fn board_cell(keys: Seq<char>, k: int) -> Seq<char> {
    if k < 0 {
        seq![' ', ' ']
    } else {
        seq![keys[k], ' ']
    }
}

/// The first `n` cells of a row, each followed by its separator: a space,
/// and `" | "` between the two hands.
pub open spec fn board_row_prefix(keys: Seq<char>, row: Seq<int>, n: int) -> Seq<char>
    decreases n,
{
    if n <= 0 {
        seq![]
    } else {
        let before = board_row_prefix(keys, row, n - 1);
        let sep = if n - 1 == 0 {
            seq![]
        } else if n - 1 == 4 {
            seq![' ', '|', ' ']
        } else {
            seq![' ']
        };
        before + sep + board_cell(keys, row[n - 1])
    }
}

/// The rows of the board, one line each, without a final line break.
pub open spec fn board_text_of(keys: Seq<char>, rows: int) -> Seq<char>
    decreases rows,
{
    if rows <= 0 {
        seq![]
    } else if rows == 1 {
        board_row_prefix(keys, board_cells()[0], 8)
    } else {
        board_text_of(keys, rows - 1) + seq!['\n'] + board_row_prefix(keys, board_cells()[rows - 1], 8)
    }
}

/// The key shown at `cell` of `row` on the board (`-1`: none).
fn board_key(row: usize, cell: usize) -> (k: i8)
    requires
        row < 6,
        cell < 8,
    ensures
        k == board_cells()[row as int][cell as int],
{
    let rows: [[i8; 8]; 6] = [
        [-1, 0, 1, 2, 3, 4, 5, -1],
        [-1, 6, 7, 8, 9, 10, 11, -1],
        [12, 13, 14, 15, 16, 17, 18, 19],
        [20, 21, 22, 23, 24, 25, 26, 27],
        [-1, -1, -1, 28, 29, -1, -1, -1],
        [-1, 30, 31, 32, 33, 34, 35, -1],
    ];
    let r = rows[row];
    proof {
        assert(rows@[row as int]@ =~= board_cells()[row as int].map_values(|x: int| x as i8));
    }
    r[cell]
}

/// One layer of a layout.
#[derive(Clone, Copy, Debug)]
pub struct Layer(LayerKeys);

impl View for Layer {
    type V = Seq<char>;

    closed spec fn view(&self) -> Seq<char> {
        self.0@
    }
}

/// `s` with the entries at `i` and `j` exchanged.
pub open spec fn swap_seq<T>(s: Seq<T>, i: int, j: int) -> Seq<T> {
    s.update(i, s[j]).update(j, s[i])
}

impl Layer {
    pub fn new(keys: LayerKeys) -> (r: Layer)
        ensures
            r@ == keys@,
    {
        Layer(keys)
    }

    pub proof fn lemma_len(&self)
        ensures
            self@.len() == NUM_OF_KEYS,
    {
        self.0.lemma_len();
    }

    /// The characters of the layer, key by key.
    pub fn to_string(self) -> (r: String)
        ensures
            r@ == self@,
    {
        let keys = self.0.keys();
        string_from_chars(keys.as_slice())
    }

    /// The layer drawn as a board: six rows of cells (see `board_cells`), a
    /// cell being the key's character padded to two columns.
    pub fn board_text(&self) -> (r: String)
        ensures
            r@ == board_text_of(self@, 6),
    {
        proof {
            self.lemma_len();
        }
        let mut out: Vec<char> = Vec::new();
        let mut row: usize = 0;
        while row < 6
            invariant
                row <= 6,
                self@.len() == NUM_OF_KEYS,
                out@ == board_text_of(self@, row as int),
            decreases 6 - row,
        {
            if row > 0 {
                out.push('\n');
            }
            let ghost start = out@;
            let mut cell: usize = 0;
            while cell < 8
                invariant
                    row < 6,
                    cell <= 8,
                    self@.len() == NUM_OF_KEYS,
                    out@ == start + board_row_prefix(self@, board_cells()[row as int], cell as int),
                decreases 8 - cell,
            {
                let ghost before = out@;
                if cell == 4 {
                    out.push(' ');
                    out.push('|');
                    out.push(' ');
                } else if cell > 0 {
                    out.push(' ');
                }
                let k = board_key(row, cell);
                if k < 0 {
                    out.push(' ');
                } else {
                    out.push(self.key(k as usize));
                }
                out.push(' ');
                proof {
                    let prefix = board_row_prefix(self@, board_cells()[row as int], cell as int);
                    assert(board_row_prefix(self@, board_cells()[row as int], cell + 1) =~= prefix + (if cell == 0 {
                        seq![]
                    } else if cell == 4 {
                        seq![' ', '|', ' ']
                    } else {
                        seq![' ']
                    }) + board_cell(self@, k as int));
                    assert(out@ =~= start + board_row_prefix(self@, board_cells()[row as int], cell + 1));
                }
                cell += 1;
            }
            proof {
                if row == 0 {
                    assert(out@ =~= board_text_of(self@, 1));
                } else {
                    assert(out@ =~= board_text_of(self@, row + 1));
                }
            }
            row += 1;
        }
        string_from_chars(out.as_slice())
    }

    /// The character on key `index`.
    pub fn key(&self, index: usize) -> (c: char)
        requires
            index < NUM_OF_KEYS,
        ensures
            c == self@[index as int],
    {
        self.0.get(index)
    }

    /// Exchanges the characters of keys `i` and `j`.
    pub fn swap(&mut self, i: usize, j: usize)
        requires
            i < NUM_OF_KEYS,
            j < NUM_OF_KEYS,
        ensures
            final(self)@ == swap_seq(old(self)@, i as int, j as int),
    {
        let temp = self.0.get(i);
        let other = self.0.get(j);
        self.0.set(i, other);
        self.0.set(j, temp);
    }

    /// Records, for each character of this layer with a code in 1..128, the key
    /// press that types it; a later key overrides an earlier one.
    fn fill_position_map(&self, map: &mut [Option<KeyPress>; 128])
        ensures
            forall|c: char|
                code(c) < 128 ==> #[trigger] final(map)@[code(c)] == (if code(c) == 0 {
                    old(map)@[code(c)]
                } else {
                    match last_position(self@, c) {
                        Some(p) => Some(key_press_at(c, p)),
                        None => old(map)@[code(c)],
                    }
                }),
    {
        let fingers = key_finger_map();
        let hands = key_hand_map();
        let rows = key_row_map();
        let centers = key_center_map();
        proof {
            self.lemma_len();
        }
        let ghost start = map@;
        let mut i: usize = 0;
        while i < NUM_OF_KEYS
            invariant
                i <= NUM_OF_KEYS,
                self@.len() == NUM_OF_KEYS,
                fingers@ == key_fingers(),
                hands@ == key_hands(),
                rows@ == key_rows(),
                centers@ == key_center_column(),
                forall|d: char|
                    code(d) < 128 ==> #[trigger] map@[code(d)] == (if code(d) == 0 {
                        start[code(d)]
                    } else {
                        match last_position(self@.take(i as int), d) {
                            Some(p) => Some(key_press_at(d, p)),
                            None => start[code(d)],
                        }
                    }),
            decreases NUM_OF_KEYS - i,
        {
            let c = self.key(i);
            let cu = c as u32;
            proof {
                assert(self@.take(i + 1).drop_last() =~= self@.take(i as int));
            }
            if 0 < cu && cu < 128 {
                map[cu as usize] = Some(
                    KeyPress {
                        kc: c,
                        pos: i,
                        finger: fingers[i],
                        hand: hands[i],
                        row: rows[i],
                        center: centers[i],
                    },
                );
                assert forall|d: char| code(d) < 128 implies #[trigger] map@[code(d)] == (if code(d) == 0 {
                    start[code(d)]
                } else {
                    match last_position(self@.take(i + 1), d) {
                        Some(p) => Some(key_press_at(d, p)),
                        None => start[code(d)],
                    }
                }) by {
                    if d != c {
                        assert(code(d) != cu as int) by {
                            if code(d) == cu as int {
                                vstd::utf8::char_u32_cast(d, d as u32);
                                vstd::utf8::char_u32_cast(c, cu);
                            }
                        }
                    }
                }
            } else {
                assert forall|d: char| code(d) < 128 implies #[trigger] map@[code(d)] == (if code(d) == 0 {
                    start[code(d)]
                } else {
                    match last_position(self@.take(i + 1), d) {
                        Some(p) => Some(key_press_at(d, p)),
                        None => start[code(d)],
                    }
                }) by {
                    if code(d) != 0 {
                        assert(d != c);
                    }
                }
            }
            i = i + 1;
        }
        assert(self@.take(NUM_OF_KEYS as int) =~= self@);
    }
}

/// A layout: the lower layer and the upper (shifted) layer.
#[derive(Clone, Copy, Debug)]
pub struct Layout(pub Layer, pub Layer);

/// The Unicode scalar value of `c`.
pub open spec fn code(c: char) -> int {
    (c as u32) as int
}

/// The character at index `i` of `s`, or `'\0'` beyond its end.
pub open spec fn char_or_nul(s: Seq<char>, i: int) -> char {
    if 0 <= i < s.len() {
        s[i]
    } else {
        '\0'
    }
}

/// `s` after applying `swaps` one after the other.
pub open spec fn apply_swaps<T>(s: Seq<T>, swaps: Seq<(int, int)>) -> Seq<T>
    decreases swaps.len(),
{
    if swaps.len() == 0 {
        s
    } else {
        swap_seq(apply_swaps(s, swaps.drop_last()), swaps.last().0, swaps.last().1)
    }
}

/// Every swap exchanges two keys that a shuffle may move.
pub open spec fn swappable_swaps(swaps: Seq<(int, int)>) -> bool {
    forall|k: int|
        0 <= k < swaps.len() ==> is_swappable(#[trigger] swaps[k].0) && is_swappable(swaps[k].1)
}

/// The key press that types `c` from key `pos`.
pub open spec fn key_press_at(c: char, pos: int) -> KeyPress {
    KeyPress {
        kc: c,
        pos: pos as usize,
        finger: key_fingers()[pos],
        hand: key_hands()[pos],
        row: key_rows()[pos],
        center: key_center_column()[pos],
    }
}

/// The position of the key that types no particular character.
pub open spec fn empty_key_press_at(pos: int) -> EmptyKeyPress {
    EmptyKeyPress {
        pos: pos as usize,
        finger: key_fingers()[pos],
        hand: key_hands()[pos],
        row: key_rows()[pos],
        center: key_center_column()[pos],
    }
}

/// The last index of `c` in `keys`, if it occurs.
pub open spec fn last_position(keys: Seq<char>, c: char) -> Option<int>
    decreases keys.len(),
{
    if keys.len() == 0 {
        None
    } else if keys.last() == c {
        Some(keys.len() - 1)
    } else {
        last_position(keys.drop_last(), c)
    }
}

/// The key press that types `c` on `layout`: the last key of the upper layer
/// carrying `c`, else the last key of the lower layer carrying it. Only
/// characters with a code in 1..128 are typed.
pub open spec fn key_position(layout: Layout, c: char) -> Option<KeyPress> {
    if 0 < code(c) < 128 {
        match last_position(layout.1@, c) {
            Some(p) => Some(key_press_at(c, p)),
            None => match last_position(layout.0@, c) {
                Some(p) => Some(key_press_at(c, p)),
                None => None,
            },
        }
    } else {
        None
    }
}

pub proof fn lemma_last_position_bounds(keys: Seq<char>, c: char)
    ensures
        last_position(keys, c) matches Some(p) ==> 0 <= p < keys.len() && keys[p] == c,
    decreases keys.len(),
{
    if keys.len() > 0 && keys.last() != c {
        lemma_last_position_bounds(keys.drop_last(), c);
    }
}

impl Layout {
    pub fn new(lower: Layer, upper: Layer) -> (r: Layout)
        ensures
            r.0 == lower,
            r.1 == upper,
    {
        Layout(lower, upper)
    }

    /// Reads a layout from text: character `i` goes on key `i` of the lower
    /// layer and character `i + 40` on key `i` of the upper layer; missing
    /// characters become `'\0'`.
    pub fn from_string(s: &str) -> (r: Layout)
        ensures
            r.0@ == Seq::new(NUM_OF_KEYS as nat, |i: int| char_or_nul(s@, i)),
            r.1@ == Seq::new(NUM_OF_KEYS as nat, |i: int| char_or_nul(s@, i + 40)),
    {
        let s = chars_of(s);
        let mut lower: [char; NUM_OF_KEYS] = ['\0'; NUM_OF_KEYS];
        let mut upper: [char; NUM_OF_KEYS] = ['\0'; NUM_OF_KEYS];
        let mut i: usize = 0;
        while i < NUM_OF_KEYS
            invariant
                i <= NUM_OF_KEYS,
                lower@.len() == NUM_OF_KEYS,
                upper@.len() == NUM_OF_KEYS,
                forall|k: int| 0 <= k < i ==> lower@[k] == char_or_nul(s@, k),
                forall|k: int| 0 <= k < i ==> upper@[k] == char_or_nul(s@, k + 40),
            decreases NUM_OF_KEYS - i,
        {
            let lc = if i < s.len() { s[i] } else { '\0' };
            let uc = if i + 40 < s.len() { s[i + 40] } else { '\0' };
            lower[i] = lc;
            upper[i] = uc;
            i = i + 1;
        }
        let r = Layout(Layer(LayerKeys::new(lower)), Layer(LayerKeys::new(upper)));
        assert(r.0@ =~= Seq::new(NUM_OF_KEYS as nat, |i: int| char_or_nul(s@, i)));
        assert(r.1@ =~= Seq::new(NUM_OF_KEYS as nat, |i: int| char_or_nul(s@, i + 40)));
        r
    }

    /// Reads the lower layer from text (character `i` on key `i`) and derives
    /// the upper layer by upper-casing each character; keys beyond the text
    /// hold `'\0'` on both layers.
    pub fn from_lower_string(s: &str) -> (r: Layout)
        ensures
            r.0@ == Seq::new(NUM_OF_KEYS as nat, |i: int| char_or_nul(s@, i)),
            r.1@ == Seq::new(
                NUM_OF_KEYS as nat,
                |i: int|
                    if i < s@.len() {
                        uppercase_first(s@[i])
                    } else {
                        '\0'
                    },
            ),
            forall|i: int|
                0 <= i < NUM_OF_KEYS && i < s@.len() && code(s@[i]) < 128 ==> r.1@[i] == ascii_upper(
                    s@[i],
                ),
    {
        let s = chars_of(s);
        let mut lower: [char; NUM_OF_KEYS] = ['\0'; NUM_OF_KEYS];
        let mut upper: [char; NUM_OF_KEYS] = ['\0'; NUM_OF_KEYS];
        let mut i: usize = 0;
        while i < NUM_OF_KEYS
            invariant
                i <= NUM_OF_KEYS,
                lower@.len() == NUM_OF_KEYS,
                upper@.len() == NUM_OF_KEYS,
                forall|k: int| 0 <= k < i ==> lower@[k] == char_or_nul(s@, k),
                forall|k: int|
                    0 <= k < i ==> upper@[k] == (if k < s@.len() {
                        uppercase_first(s@[k])
                    } else {
                        '\0'
                    }),
                forall|k: int| i <= k < NUM_OF_KEYS ==> lower@[k] == '\0' && upper@[k] == '\0',
                forall|k: int|
                    0 <= k < i && k < s@.len() && code(s@[k]) < 128 ==> upper@[k] == ascii_upper(s@[k]),
            decreases NUM_OF_KEYS - i,
        {
            if i < s.len() {
                let keychar = s[i];
                let upperkeychar = char_uppercase_first(keychar);
                lower[i] = keychar;
                upper[i] = upperkeychar;
            }
            i = i + 1;
        }
        let r = Layout(Layer(LayerKeys::new(lower)), Layer(LayerKeys::new(upper)));
        assert(r.0@ =~= Seq::new(NUM_OF_KEYS as nat, |i: int| char_or_nul(s@, i)));
        assert(r.1@ =~= Seq::new(
            NUM_OF_KEYS as nat,
            |i: int|
                if i < s@.len() {
                    uppercase_first(s@[i])
                } else {
                    '\0'
                },
        ));
        r
    }

    /// Applies `times` random swaps of movable keys, the same swap on both layers.
    pub fn shuffle(&mut self, times: usize)
        ensures
            exists|swaps: Seq<(int, int)>|
                {
                    &&& swaps.len() == times
                    &&& swappable_swaps(swaps)
                    &&& final(self).0@ == apply_swaps(old(self).0@, swaps)
                    &&& final(self).1@ == apply_swaps(old(self).1@, swaps)
                },
    {
        let ghost swaps: Seq<(int, int)> = Seq::empty();
        let ghost start = *self;
        let mut n: usize = 0;
        while n < times
            invariant
                n <= times,
                swaps.len() == n,
                swappable_swaps(swaps),
                self.0@ == apply_swaps(start.0@, swaps),
                self.1@ == apply_swaps(start.1@, swaps),
            decreases times - n,
        {
            let (i, j) = Layout::shuffle_position();
            self.0.swap(i, j);
            self.1.swap(i, j);
            proof {
                let next = swaps.push((i as int, j as int));
                assert(next.drop_last() =~= swaps);
                swaps = next;
            }
            n = n + 1;
        }
    }

    /// The key press of every character of the layout (see `key_position`).
    pub fn get_position_map(&self) -> (r: LayoutPosMap)
        ensures
            forall|c: char| #[trigger] r.lookup(c) == key_position(*self, c),
    {
        let mut map: [Option<KeyPress>; 128] = [None; 128];
        let ghost m0 = map@;
        self.0.fill_position_map(&mut map);
        let ghost m1 = map@;
        assert(forall|c: char|
            code(c) < 128 ==> #[trigger] m1[code(c)] == (if code(c) == 0 {
                None
            } else {
                match last_position(self.0@, c) {
                    Some(p) => Some(key_press_at(c, p)),
                    None => None,
                }
            }));
        self.1.fill_position_map(&mut map);
        assert(forall|c: char|
            code(c) < 128 ==> #[trigger] map@[code(c)] == (if code(c) == 0 {
                m1[code(c)]
            } else {
                match last_position(self.1@, c) {
                    Some(p) => Some(key_press_at(c, p)),
                    None => m1[code(c)],
                }
            }));
        let r = LayoutPosMap(map);
        assert forall|c: char| #[trigger] r.lookup(c) == key_position(*self, c) by {
            if code(c) < 128 {
                assert(r.lookup(c) == map@[code(c)]);
                if code(c) == 0 {
                    assert(key_position(*self, c) == None::<KeyPress>);
                    assert(m1[code(c)] == None::<KeyPress>);
                } else {
                    assert(key_position(*self, c) == match last_position(self.1@, c) {
                        Some(p) => Some(key_press_at(c, p)),
                        None => m1[code(c)],
                    });
                }
            } else {
                assert(r.lookup(c) == None::<KeyPress>);
                assert(key_position(*self, c) == None::<KeyPress>);
            }
        }
        r
    }

    /// The characters of the lower layer.
    pub fn get_character_positions(&self) -> (r: [char; NUM_OF_KEYS])
        ensures
            r@ == self.0@,
    {
        (self.0).0.keys()
    }

    /// Two random movable keys (possibly the same one).
    pub fn shuffle_position() -> (r: (usize, usize))
        ensures
            is_swappable(r.0 as int),
            is_swappable(r.1 as int),
    {
        let i = random_swappable_position();
        let j = random_swappable_position();
        (i, j)
    }
}

/// A random movable key, each movable key as likely as another: drawing
/// among the movable keys directly gives the distribution that drawing among
/// all keys until a movable one comes gives.
fn random_swappable_position() -> (r: usize)
    ensures
        is_swappable(r as int),
{
    random_usize() % 28
}

/// A random `usize`.
///
/// Trusted: calls `rand::random::<usize>()`; nothing is stated of the value,
/// which depends on the thread-local random generator.
#[verifier::external_body]
pub(crate) fn random_usize() -> (r: usize) {
    rand::random::<usize>()
}

/// The key pressed to type a character, with its place on the board.
#[derive(Clone, Copy, Debug)]
pub struct KeyPress {
    pub kc: char,
    pub pos: usize,
    pub finger: Finger,
    pub hand: Hand,
    pub row: Row,
    pub center: bool,
}

/// A key of the board, without a character on it.
#[derive(Clone, Copy, Debug)]
pub struct EmptyKeyPress {
    pub pos: usize,
    pub finger: Finger,
    pub hand: Hand,
    pub row: Row,
    pub center: bool,
}

/// For each character code below 128, the key press that types it.
pub struct LayoutPosMap([Option<KeyPress>; 128]);

impl LayoutPosMap {
    /// The key press that types `c`, if any.
    pub closed spec fn lookup(&self, c: char) -> Option<KeyPress> {
        if code(c) < 128 {
            self.0@[code(c)]
        } else {
            None
        }
    }

    pub fn get_key_position(&self, kc: char) -> (r: Option<KeyPress>)
        ensures
            r == self.lookup(kc),
    {
        let code = kc as u32;
        if code < 128 {
            self.0[code as usize]
        } else {
            None
        }
    }
}

/// Every key of the board with its finger, hand, row and column.
pub struct EmptyLayoutPosMap([EmptyKeyPress; NUM_OF_KEYS]);

impl View for EmptyLayoutPosMap {
    type V = Seq<EmptyKeyPress>;

    closed spec fn view(&self) -> Seq<EmptyKeyPress> {
        self.0@
    }
}

impl EmptyLayoutPosMap {
    pub fn get_key_position(&self, pos: usize) -> (r: EmptyKeyPress)
        requires
            pos < self@.len(),
        ensures
            r == self@[pos as int],
    {
        self.0[pos]
    }
}

/// The board with no characters on it.
pub fn get_empty_position_map() -> (r: EmptyLayoutPosMap)
    ensures
        r@.len() == NUM_OF_KEYS,
        forall|i: int| 0 <= i < NUM_OF_KEYS ==> #[trigger] r@[i] == empty_key_press_at(i),
{
    let fingers = key_finger_map();
    let hands = key_hand_map();
    let rows = key_row_map();
    let centers = key_center_map();
    let mut map: [EmptyKeyPress; NUM_OF_KEYS] = [
        EmptyKeyPress {
            pos: 0,
            finger: Finger::Index,
            hand: Hand::Left,
            row: Row::Bottom,
            center: false,
        };
        NUM_OF_KEYS
    ];
    let mut i: usize = 0;
    while i < NUM_OF_KEYS
        invariant
            i <= NUM_OF_KEYS,
            map@.len() == NUM_OF_KEYS,
            fingers@ == key_fingers(),
            hands@ == key_hands(),
            rows@ == key_rows(),
            centers@ == key_center_column(),
            forall|k: int| 0 <= k < i ==> #[trigger] map@[k] == empty_key_press_at(k),
        decreases NUM_OF_KEYS - i,
    {
        map[i] = EmptyKeyPress {
            pos: i,
            finger: fingers[i],
            hand: hands[i],
            row: rows[i],
            center: centers[i],
        };
        i = i + 1;
    }
    EmptyLayoutPosMap(map)
}

/// A mask over the keys.
#[derive(Clone)]
pub struct LayoutShuffleMask(pub [bool; NUM_OF_KEYS]);



/// The lower layer of the reference layout, key by key.
pub open spec fn base_lower() -> Seq<char> {
    seq![
        'f', 'j', 'x', 'r', 'h', 'y',
        'e', 'o', 'u', 'c', 'n', 'a',
        'd', 't', 'g', 'p', 'v', 's', 'i', 'w',
        'k', 'l', ' ', 'z', 'm', ' ', 'b', 'q',
        ' ', ' ',
        ' ', ' ', ' ', ' ', ' ', '_',
    ]
}

/// The upper layer of the reference layout, key by key.
pub open spec fn base_upper() -> Seq<char> {
    seq![
        'F', 'J', 'X', 'R', 'H', 'Y',
        'E', 'O', 'U', 'C', 'N', 'A',
        'D', 'T', 'G', 'P', 'V', 'S', 'I', 'W',
        'K', 'L', ' ', 'Z', 'M', ' ', 'B', 'Q',
        ' ', ' ',
        ' ', ' ', ' ', ' ', ' ', '_',
    ]
}

/// The reference layout.
pub fn base_layout() -> (r: Layout)
    ensures
        r.0@ == base_lower(),
        r.1@ == base_upper(),
{
    let lower = [
        'f', 'j', 'x', 'r', 'h', 'y',
        'e', 'o', 'u', 'c', 'n', 'a',
        'd', 't', 'g', 'p', 'v', 's', 'i', 'w',
        'k', 'l', ' ', 'z', 'm', ' ', 'b', 'q',
        ' ', ' ',
        ' ', ' ', ' ', ' ', ' ', '_',
    ];
    let upper = [
        'F', 'J', 'X', 'R', 'H', 'Y',
        'E', 'O', 'U', 'C', 'N', 'A',
        'D', 'T', 'G', 'P', 'V', 'S', 'I', 'W',
        'K', 'L', ' ', 'Z', 'M', ' ', 'B', 'Q',
        ' ', ' ',
        ' ', ' ', ' ', ' ', ' ', '_',
    ];
    let r = Layout(Layer(LayerKeys::new(lower)), Layer(LayerKeys::new(upper)));
    assert(r.0@ =~= base_lower());
    assert(r.1@ =~= base_upper());
    r
}

/* ------------------------------------------------------------------ *
 * Laws                                                               *
 * ------------------------------------------------------------------ */

/// Exchanging two keys keeps the same characters on the layer.
pub proof fn lemma_swap_permutes<T>(s: Seq<T>, i: int, j: int)
    requires
        0 <= i < s.len(),
        0 <= j < s.len(),
    ensures
        swap_seq(s, i, j).len() == s.len(),
        swap_seq(s, i, j).to_multiset() == s.to_multiset(),
{
    broadcast use vstd::seq_lib::to_multiset_update, vstd::multiset::group_multiset_axioms;

    let t = s.update(i, s[j]);
    assert(t[j] == s[j]);
    assert(t.to_multiset() == s.to_multiset().insert(s[j]).remove(s[i]));
    assert(t.update(j, s[i]).to_multiset() == t.to_multiset().insert(s[i]).remove(s[j]));
    let m = s.to_multiset();
    vstd::seq_lib::to_multiset_contains(s, s[i]);
    vstd::seq_lib::to_multiset_contains(s, s[j]);
    assert(s.contains(s[i]));
    assert(s.contains(s[j]));
    assert forall|x: T| #[trigger] t.update(j, s[i]).to_multiset().count(x) == m.count(x) by {
    }
    assert(t.update(j, s[i]).to_multiset() =~= s.to_multiset());
}

/// A shuffle only rearranges a layer: it holds the same characters as before,
/// and every key that may not be moved keeps its character.
pub proof fn lemma_shuffle_permutes<T>(s: Seq<T>, swaps: Seq<(int, int)>)
    requires
        s.len() == NUM_OF_KEYS,
        swappable_swaps(swaps),
    ensures
        apply_swaps(s, swaps).len() == s.len(),
        apply_swaps(s, swaps).to_multiset() == s.to_multiset(),
        forall|p: int|
            0 <= p < s.len() && !is_swappable(p) ==> #[trigger] apply_swaps(s, swaps)[p] == s[p],
    decreases swaps.len(),
{
    if swaps.len() > 0 {
        let rest = swaps.drop_last();
        assert(swappable_swaps(rest)) by {
            assert forall|k: int| 0 <= k < rest.len() implies is_swappable(#[trigger] rest[k].0)
                && is_swappable(rest[k].1) by {
                assert(rest[k] == swaps[k]);
            }
        }
        lemma_shuffle_permutes(s, rest);
        let last = swaps[swaps.len() - 1];
        assert(is_swappable(last.0) && is_swappable(last.1));
        lemma_swap_permutes(apply_swaps(s, rest), last.0, last.1);
    }
}

/// The row distance does not depend on the direction of travel.
pub proof fn lemma_row_distance_symmetric(a: Row, b: Row)
    ensures
        row_distance(a, b) == row_distance(b, a),
        row_distance(a, a) == 0,
        row_distance(a, b) <= 3,
{
}

/// A character is found on the key that carries it, in the upper layer when
/// both layers carry it.
pub proof fn lemma_key_position_carries(layout: Layout, c: char)
    ensures
        key_position(layout, c) matches Some(kp) ==> {
            &&& kp.kc == c
            &&& 0 <= kp.pos < NUM_OF_KEYS
            &&& (layout.1@[kp.pos as int] == c || layout.0@[kp.pos as int] == c)
            &&& kp == key_press_at(c, kp.pos as int)
        },
        key_position(layout, c) is None ==> !layout.1@.contains(c) || !(0 < code(c) < 128),
{
    layout.0.lemma_len();
    layout.1.lemma_len();
    lemma_last_position_bounds(layout.0@, c);
    lemma_last_position_bounds(layout.1@, c);
    lemma_last_position_complete(layout.1@, c);
}

/// `last_position` finds every character that occurs.
pub proof fn lemma_last_position_complete(keys: Seq<char>, c: char)
    ensures
        keys.contains(c) ==> last_position(keys, c) is Some,
    decreases keys.len(),
{
    if keys.len() > 0 && keys.last() != c {
        if keys.contains(c) {
            let i = choose|i: int| 0 <= i < keys.len() && keys[i] == c;
            assert(keys.drop_last()[i] == c);
        }
        lemma_last_position_complete(keys.drop_last(), c);
    }
}

} // verus!
