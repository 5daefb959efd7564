//! Conversions between Rust strings and character vectors, and the Unicode
//! case mappings of the standard library. These are the only places where the
//! library relies on `str`/`char` behaviour that Verus does not model.
use vstd::prelude::*;
use crate::layout::code;

verus! {

/// Converts `s` into the vector of its characters, in order.
///
/// Trusted: calls `str::chars` and collects the iterator; the standard
/// library documents that `chars` yields the characters of the string in order.
#[verifier::external_body]
pub(crate) fn chars_of(s: &str) -> (r: Vec<char>)
    ensures
        r@ == s@,
{
    s.chars().collect()
}

/// Builds a `String` holding exactly the characters of `cs`, in order.
///
/// Trusted: calls `String::from_iter` over the characters, which the standard
/// library documents as concatenating them.
#[verifier::external_body]
pub(crate) fn string_from_chars(cs: &[char]) -> (r: String)
    ensures
        r@ == cs@,
{
    String::from_iter(cs.iter())
}

/// The first character of the Unicode upper-case mapping of `c`.
pub uninterp spec fn uppercase_first(c: char) -> char;

/// The first character of `char::to_uppercase(c)`.
///
/// Trusted: the Unicode case tables are not modelled; the contract names the
/// result, which depends on `c` alone, and states the case the standard
/// library documents plainly: an ASCII character maps to its ASCII upper-case
/// form (`a`..`z` to `A`..`Z`, every other ASCII character unchanged).
#[verifier::external_body]
pub(crate) fn char_uppercase_first(c: char) -> (r: char)
    ensures
        r == uppercase_first(c),
        code(c) < 128 ==> r == ascii_upper(c),
{
    c.to_uppercase().collect::<Vec<char>>()[0]
}

/// The Unicode lower-case mapping of a string.
pub uninterp spec fn lowercase(s: Seq<char>) -> Seq<char>;

/// `str::to_lowercase`.
///
/// Trusted: the Unicode case tables are not modelled; the contract names the
/// result, which depends on the text alone, and states the one case the
/// standard library documents plainly: on ASCII text the mapping is ASCII
/// lower-casing (`A`..`Z` to `a`..`z`, every other character unchanged).
#[verifier::external_body]
pub(crate) fn to_lowercase(s: &[char]) -> (r: Vec<char>)
    ensures
        r@ == lowercase(s@),
        all_ascii(s@) ==> r@ == ascii_lowercase(s@),
{
    let text: String = s.iter().collect();
    text.to_lowercase().chars().collect()
}

// ---------------------------------------------------------------------------
// Character classes
// ---------------------------------------------------------------------------

/// An ASCII letter or the space character.
pub open spec fn is_letter_or_space(c: char) -> bool {
    (65 <= code(c) <= 90) || (97 <= code(c) <= 122) || code(c) == 32
}

/// Every character of `s` is an ASCII letter or a space.
pub open spec fn all_letters_or_spaces(s: Seq<char>) -> bool {
    forall|i: int| 0 <= i < s.len() ==> is_letter_or_space(#[trigger] s[i])
}

/// Every character of `s` has a code point of at most 128.
pub open spec fn all_within_128(s: Seq<char>) -> bool {
    forall|i: int| 0 <= i < s.len() ==> code(#[trigger] s[i]) <= 128
}

/// Every character of `s` is ASCII.
pub open spec fn all_ascii(s: Seq<char>) -> bool {
    forall|i: int| 0 <= i < s.len() ==> code(#[trigger] s[i]) < 128
}

/// The ASCII lower-case form of a character: `A`..`Z` become `a`..`z`.
pub open spec fn ascii_lower(c: char) -> char {
    if 65 <= code(c) <= 90 {
        (code(c) + 32) as char
    } else {
        c
    }
}

/// The ASCII upper-case form of a character: `a`..`z` become `A`..`Z`.
pub open spec fn ascii_upper(c: char) -> char {
    if 97 <= code(c) <= 122 {
        (code(c) - 32) as char
    } else {
        c
    }
}

/// The ASCII lower-case form of a text.
pub open spec fn ascii_lowercase(s: Seq<char>) -> Seq<char> {
    s.map_values(|c: char| ascii_lower(c))
}

/// Whether `c` is an ASCII letter or a space.
pub fn letter_or_space(c: char) -> (r: bool)
    ensures
        r == is_letter_or_space(c),
{
    let v = c as u32;
    (65 <= v && v <= 90) || (97 <= v && v <= 122) || v == 32
}

/// Whether every character of `s` is an ASCII letter or a space.
pub fn letters_or_spaces(s: &[char]) -> (r: bool)
    ensures
        r == all_letters_or_spaces(s@),
{
    let mut i: usize = 0;
    while i < s.len()
        invariant
            i <= s.len(),
            forall|j: int| 0 <= j < i ==> is_letter_or_space(#[trigger] s@[j]),
        decreases s.len() - i,
    {
        if !letter_or_space(s[i]) {
            return false;
        }
        i += 1;
    }
    true
}

/// Whether every character of `s` has a code point of at most 128.
pub fn within_128(s: &[char]) -> (r: bool)
    ensures
        r == all_within_128(s@),
{
    let mut i: usize = 0;
    while i < s.len()
        invariant
            i <= s.len(),
            forall|j: int| 0 <= j < i ==> code(#[trigger] s@[j]) <= 128,
        decreases s.len() - i,
    {
        let v = s[i] as u32;
        if v > 128 {
            return false;
        }
        i += 1;
    }
    true
}

// ---------------------------------------------------------------------------
// Line endings, splitting and lines
// ---------------------------------------------------------------------------

/// The text with every `"\r\n"` replaced by `"\n"`, matches taken from the left.
pub open spec fn crlf_to_lf(s: Seq<char>) -> Seq<char>
    decreases s.len(),
{
    if s.len() == 0 {
        seq![]
    } else if s.len() >= 2 && s[0] == '\r' && s[1] == '\n' {
        seq!['\n'] + crlf_to_lf(s.skip(2))
    } else {
        seq![s[0]] + crlf_to_lf(s.skip(1))
    }
}

/// Replaces every `"\r\n"` of `s` by `"\n"`.
pub fn replace_crlf(s: &[char]) -> (r: Vec<char>)
    ensures
        r@ == crlf_to_lf(s@),
{
    let mut r: Vec<char> = Vec::new();
    let mut i: usize = 0;
    assert(s@.skip(0) =~= s@);
    while i < s.len()
        invariant
            i <= s.len(),
            r@ + crlf_to_lf(s@.skip(i as int)) == crlf_to_lf(s@),
        decreases s.len() - i,
    {
        let ghost rest = s@.skip(i as int);
        if i + 1 < s.len() && s[i] == '\r' && s[i + 1] == '\n' {
            assert(rest.skip(2) =~= s@.skip(i + 2));
            assert(r@.push('\n') + crlf_to_lf(rest.skip(2)) =~= r@ + (seq!['\n'] + crlf_to_lf(rest.skip(2))));
            r.push('\n');
            i += 2;
        } else {
            assert(rest.skip(1) =~= s@.skip(i + 1));
            assert(r@.push(s@[i as int]) + crlf_to_lf(rest.skip(1)) =~= r@ + (seq![rest[0]] + crlf_to_lf(rest.skip(1))));
            r.push(s[i]);
            i += 1;
        }
    }
    assert(s@.skip(i as int) =~= Seq::<char>::empty());
    assert(r@ + crlf_to_lf(s@.skip(i as int)) =~= r@);
    r
}

/// Adds `cur` to the front of the first piece of `pieces`.
pub open spec fn prepend_first(cur: Seq<char>, pieces: Seq<Seq<char>>) -> Seq<Seq<char>> {
    pieces.update(0, cur + pieces[0])
}

/// The pieces of `s` between the occurrences of the non-empty pattern `p`,
/// occurrences taken from the left without overlap (as `str::split` does).
pub open spec fn split_pat(s: Seq<char>, p: Seq<char>) -> Seq<Seq<char>>
    decreases s.len(),
{
    if s.len() == 0 {
        seq![seq![]]
    } else if 0 < p.len() <= s.len() && s.take(p.len() as int) == p {
        seq![seq![]] + split_pat(s.skip(p.len() as int), p)
    } else {
        prepend_first(seq![s[0]], split_pat(s.skip(1), p))
    }
}

/// There is always at least one piece.
pub proof fn lemma_split_pat_nonempty(s: Seq<char>, p: Seq<char>)
    ensures
        split_pat(s, p).len() >= 1,
    decreases s.len(),
{
    if s.len() == 0 {
    } else if 0 < p.len() <= s.len() && s.take(p.len() as int) == p {
        lemma_split_pat_nonempty(s.skip(p.len() as int), p);
    } else {
        lemma_split_pat_nonempty(s.skip(1), p);
    }
}

/// The views of a sequence of character vectors.
pub open spec fn views(v: Seq<Vec<char>>) -> Seq<Seq<char>> {
    v.map_values(|x: Vec<char>| x@)
}

/// Whether the pattern `p` occurs in `s` at position `i`.
fn matches_at(s: &[char], p: &[char], i: usize) -> (r: bool)
    requires
        i <= s.len(),
    ensures
        r == (i + p.len() <= s.len() && s@.subrange(i as int, i + p.len()) == p@),
{
    if p.len() > s.len() - i {
        return false;
    }
    let mut j: usize = 0;
    while j < p.len()
        invariant
            i + p.len() <= s.len(),
            j <= p.len(),
            forall|k: int| 0 <= k < j ==> s@[i + k] == p@[k],
        decreases p.len() - j,
    {
        if s[i + j] != p[j] {
            assert(s@.subrange(i as int, i + p.len())[j as int] != p@[j as int]);
            return false;
        }
        j += 1;
    }
    assert(s@.subrange(i as int, i + p.len()) =~= p@);
    true
}

proof fn lemma_split_step_match(s: Seq<char>, p: Seq<char>, i: int, done: Seq<Seq<char>>, cur: Seq<char>)
    requires
        0 < p.len(),
        0 <= i,
        i + p.len() <= s.len(),
        s.subrange(i, i + p.len()) == p,
    ensures
        done + prepend_first(cur, split_pat(s.skip(i), p))
            == done.push(cur) + prepend_first(seq![], split_pat(s.skip(i + p.len()), p)),
{
    let rest = s.skip(i);
    assert(rest.take(p.len() as int) =~= p);
    assert(rest.skip(p.len() as int) =~= s.skip(i + p.len()));
    let x = split_pat(s.skip(i + p.len()), p);
    lemma_split_pat_nonempty(s.skip(i + p.len()), p);
    assert(split_pat(rest, p) == seq![seq![]] + x);
    assert(prepend_first(seq![], x) =~= x);
    assert(prepend_first(cur, seq![seq![]] + x) =~= seq![cur] + x);
    assert(done + (seq![cur] + x) =~= done.push(cur) + x);
}

proof fn lemma_split_step_plain(s: Seq<char>, p: Seq<char>, i: int, done: Seq<Seq<char>>, cur: Seq<char>)
    requires
        0 < p.len(),
        0 <= i < s.len(),
        !(i + p.len() <= s.len() && s.subrange(i, i + p.len()) == p),
    ensures
        done + prepend_first(cur, split_pat(s.skip(i), p))
            == done + prepend_first(cur.push(s[i]), split_pat(s.skip(i + 1), p)),
{
    let rest = s.skip(i);
    assert(rest.skip(1) =~= s.skip(i + 1));
    if p.len() <= rest.len() {
        assert(rest.take(p.len() as int) =~= s.subrange(i, i + p.len()));
    }
    let y = split_pat(s.skip(i + 1), p);
    lemma_split_pat_nonempty(s.skip(i + 1), p);
    assert(split_pat(rest, p) == prepend_first(seq![rest[0]], y));
    assert(cur + (seq![s[i]] + y[0]) =~= cur.push(s[i]) + y[0]);
    assert(prepend_first(cur, prepend_first(seq![s[i]], y)) =~= prepend_first(cur.push(s[i]), y));
}

/// Splits `s` at every occurrence of the non-empty pattern `p`.
pub fn split_by(s: &[char], p: &[char]) -> (r: Vec<Vec<char>>)
    requires
        p.len() > 0,
    ensures
        views(r@) == split_pat(s@, p@),
{
    let mut done: Vec<Vec<char>> = Vec::new();
    let mut cur: Vec<char> = Vec::new();
    let mut i: usize = 0;
    proof {
        assert(s@.skip(0) =~= s@);
        lemma_split_pat_nonempty(s@, p@);
        assert(prepend_first(seq![], split_pat(s@, p@)) =~= split_pat(s@, p@));
        assert(views(done@) + split_pat(s@, p@) =~= split_pat(s@, p@));
    }
    while i < s.len()
        invariant
            i <= s.len(),
            p.len() > 0,
            views(done@) + prepend_first(cur@, split_pat(s@.skip(i as int), p@)) == split_pat(s@, p@),
        decreases s.len() - i,
    {
        if matches_at(s, p, i) {
            proof {
                lemma_split_step_match(s@, p@, i as int, views(done@), cur@);
                assert(views(done@.push(cur)) =~= views(done@).push(cur@));
            }
            done.push(cur);
            cur = Vec::new();
            i = i + p.len();
        } else {
            proof {
                lemma_split_step_plain(s@, p@, i as int, views(done@), cur@);
            }
            cur.push(s[i]);
            i += 1;
        }
    }
    proof {
        assert(s@.skip(i as int) =~= Seq::<char>::empty());
        assert(prepend_first(cur@, seq![seq![]]) =~= seq![cur@]);
        assert(views(done@.push(cur)) =~= views(done@).push(cur@));
        assert(views(done@) + seq![cur@] =~= views(done@).push(cur@));
    }
    done.push(cur);
    done
}

/// A line without the `'\r'` that ended it, if it had one.
pub open spec fn strip_cr(l: Seq<char>) -> Seq<char> {
    if l.len() > 0 && l.last() == '\r' {
        l.drop_last()
    } else {
        l
    }
}

/// The lines of a text, as `str::lines` gives them: the text is cut at each
/// `'\n'`; a line so ended loses one `'\r'` before it; a last line without
/// `'\n'` is kept as it is when it is not empty.
pub open spec fn text_lines(s: Seq<char>) -> Seq<Seq<char>> {
    let pieces = split_pat(s, seq!['\n']);
    let body = pieces.drop_last().map_values(|l: Seq<char>| strip_cr(l));
    if pieces.last().len() == 0 {
        body
    } else {
        body.push(pieces.last())
    }
}

/// The lines of `s` (see `text_lines`).
pub fn lines(s: &[char]) -> (r: Vec<Vec<char>>)
    ensures
        views(r@) == text_lines(s@),
{
    let newline: Vec<char> = vec!['\n'];
    let pieces = split_by(s, newline.as_slice());
    proof {
        assert(newline@ =~= seq!['\n']);
        lemma_split_pat_nonempty(s@, seq!['\n']);
    }
    let ghost ps = views(pieces@);
    let n = pieces.len();
    let mut r: Vec<Vec<char>> = Vec::new();
    let mut k: usize = 0;
    while k + 1 < n
        invariant
            n == pieces.len(),
            n >= 1,
            ps == views(pieces@),
            k + 1 <= n,
            views(r@) == ps.take(k as int).map_values(|l: Seq<char>| strip_cr(l)),
        decreases n - k,
    {
        let mut l = pieces[k].clone();
        assert(l@ == ps[k as int]);
        let len = l.len();
        if len > 0 && l[len - 1] == '\r' {
            l.pop();
        }
        assert(l@ =~= strip_cr(ps[k as int]));
        proof {
            assert(ps.take(k + 1).map_values(|l: Seq<char>| strip_cr(l)) =~= ps.take(k as int).map_values(
                |l: Seq<char>| strip_cr(l),
            ).push(strip_cr(ps[k as int])));
            assert(views(r@.push(l)) =~= views(r@).push(l@));
        }
        r.push(l);
        k += 1;
    }
    assert(ps.take(k as int) =~= ps.drop_last());
    let last = pieces[n - 1].clone();
    if last.len() > 0 {
        proof {
            assert(views(r@.push(last)) =~= views(r@).push(last@));
        }
        r.push(last);
    }
    r
}

// ---------------------------------------------------------------------------
// Numbers in text
// ---------------------------------------------------------------------------

/// An ASCII decimal digit.
pub open spec fn is_digit(c: char) -> bool {
    48 <= code(c) <= 57
}

/// Every character of `s` is an ASCII decimal digit.
pub open spec fn all_digits(s: Seq<char>) -> bool {
    forall|i: int| 0 <= i < s.len() ==> is_digit(#[trigger] s[i])
}

/// The number that the decimal digits `s` write.
pub open spec fn digits_value(s: Seq<char>) -> int
    decreases s.len(),
{
    if s.len() == 0 {
        0
    } else {
        digits_value(s.drop_last()) * 10 + (code(s.last()) - 48)
    }
}

/// The digits of an unsigned number in text: one leading `'+'` is dropped.
pub open spec fn unsigned_digits(s: Seq<char>) -> Seq<char> {
    if s.len() > 0 && s[0] == '+' {
        s.skip(1)
    } else {
        s
    }
}

/// What `str::parse::<usize>` gives for `s`: an optional `'+'`, then at
/// least one decimal digit, and a value that fits in `usize`.
pub open spec fn parsed_usize(s: Seq<char>) -> Option<usize> {
    let d = unsigned_digits(s);
    if d.len() > 0 && all_digits(d) && digits_value(d) <= usize::MAX {
        Some(digits_value(d) as usize)
    } else {
        None
    }
}

/// A prefix of digits never writes a larger number than the whole.
pub proof fn lemma_digits_value_prefix(s: Seq<char>, k: int)
    requires
        all_digits(s),
        0 <= k <= s.len(),
    ensures
        0 <= digits_value(s.take(k)) <= digits_value(s),
    decreases s.len(),
{
    if s.len() == 0 {
        assert(s.take(k) =~= s);
    } else if k == s.len() {
        assert(s.take(k) =~= s);
        lemma_digits_value_prefix(s.drop_last(), k - 1);
        assert(s.drop_last().take(k - 1) =~= s.drop_last());
        assert(is_digit(s[s.len() - 1]));
    } else {
        assert(s.drop_last().take(k) =~= s.take(k));
        lemma_digits_value_prefix(s.drop_last(), k);
        lemma_digits_value_prefix(s.drop_last(), s.len() - 1);
        assert(s.drop_last().take(s.len() - 1) =~= s.drop_last());
        assert(is_digit(s[s.len() - 1]));
    }
}

/// Parses an unsigned number as `str::parse::<usize>` does.
pub fn parse_usize(s: &[char]) -> (r: Option<usize>)
    ensures
        r == parsed_usize(s@),
{
    let start: usize = if s.len() > 0 && s[0] == '+' { 1 } else { 0 };
    let ghost d = unsigned_digits(s@);
    assert(d =~= s@.skip(start as int));
    if start == s.len() {
        return None;
    }
    let mut value: usize = 0;
    let mut j: usize = start;
    assert(d.take(0) =~= Seq::<char>::empty());
    while j < s.len()
        invariant
            start <= j <= s.len(),
            d == s@.skip(start as int),
            d == unsigned_digits(s@),
            all_digits(d.take(j - start)),
            value == digits_value(d.take(j - start)),
        decreases s.len() - j,
    {
        let m: Ghost<int> = Ghost(j - start);
        assert(d.take(m@ + 1).drop_last() =~= d.take(m@));
        assert(d[m@] == s@[j as int]);
        assert(d.take(m@ + 1).last() == s@[j as int]);
        let v = s[j] as u32;
        if v < 48 || v > 57 {
            assert(!is_digit(d[m@]));
            assert(!all_digits(d));
            return None;
        }
        let digit = (v - 48) as usize;
        assert(all_digits(d.take(m@ + 1)));
        assert(digits_value(d.take(m@ + 1)) == value * 10 + digit);
        match value.checked_mul(10) {
            Some(tens) => match tens.checked_add(digit) {
                Some(next) => {
                    value = next;
                },
                None => {
                    proof {
                        if all_digits(d) {
                            lemma_digits_value_prefix(d, m@ + 1);
                        }
                    }
                    return None;
                },
            },
            None => {
                proof {
                    if all_digits(d) {
                        lemma_digits_value_prefix(d, m@ + 1);
                    }
                }
                return None;
            },
        }
        j += 1;
    }
    assert(d.take(j - start) =~= d);
    Some(value)
}

/// The character of the decimal digit `d`.
pub open spec fn digit_char(d: int) -> char {
    if d == 0 {
        '0'
    } else if d == 1 {
        '1'
    } else if d == 2 {
        '2'
    } else if d == 3 {
        '3'
    } else if d == 4 {
        '4'
    } else if d == 5 {
        '5'
    } else if d == 6 {
        '6'
    } else if d == 7 {
        '7'
    } else if d == 8 {
        '8'
    } else {
        '9'
    }
}

/// The decimal form of `n`, as `format!("{}", n)` writes it.
pub open spec fn decimal(n: nat) -> Seq<char>
    decreases n,
{
    if n < 10 {
        seq![digit_char(n as int)]
    } else {
        decimal(n / 10).push(digit_char((n % 10) as int))
    }
}

/// The decimal form of a number holds at least one character, and only digits.
pub proof fn lemma_decimal_digits(n: nat)
    ensures
        decimal(n).len() >= 1,
        all_digits(decimal(n)),
    decreases n,
{
    if n >= 10 {
        lemma_decimal_digits(n / 10);
    }
}

fn digit_to_char(d: usize) -> (c: char)
    requires
        d < 10,
    ensures
        c == digit_char(d as int),
{
    if d == 0 {
        '0'
    } else if d == 1 {
        '1'
    } else if d == 2 {
        '2'
    } else if d == 3 {
        '3'
    } else if d == 4 {
        '4'
    } else if d == 5 {
        '5'
    } else if d == 6 {
        '6'
    } else if d == 7 {
        '7'
    } else if d == 8 {
        '8'
    } else {
        '9'
    }
}

/// Writes `n` in decimal.
pub fn decimal_digits(n: usize) -> (r: Vec<char>)
    ensures
        r@ == decimal(n as nat),
    decreases n,
{
    if n < 10 {
        let mut r: Vec<char> = Vec::new();
        r.push(digit_to_char(n));
        assert(r@ =~= seq![digit_char(n as int)]);
        r
    } else {
        let mut r = decimal_digits(n / 10);
        r.push(digit_to_char(n % 10));
        r
    }
}

/// `n` spaces.
pub open spec fn spaces(n: nat) -> Seq<char> {
    Seq::new(n, |i: int| ' ')
}

/// `s` padded on the right with spaces to at least `width` characters, as
/// `format!("{:<width$}", ..)` writes it.
pub open spec fn pad_right(s: Seq<char>, width: nat) -> Seq<char> {
    if s.len() < width {
        s + spaces((width - s.len()) as nat)
    } else {
        s
    }
}

/// Pads `s` on the right with spaces to at least `width` characters.
pub fn pad_to_width(s: &mut Vec<char>, width: usize)
    ensures
        final(s)@ == pad_right(old(s)@, width as nat),
{
    let ghost start = s@;
    while s.len() < width
        invariant
            start.len() <= s.len(),
            s@.len() <= width || s@ == start,
            s@ =~= start + spaces((s@.len() - start.len()) as nat),
        decreases width - s.len(),
    {
        s.push(' ');
    }
    proof {
        if start.len() >= width {
            assert(s@ =~= start);
        }
    }
}

/// The number of bytes that `c` takes in UTF-8.
pub open spec fn utf8_width(c: char) -> int {
    if code(c) < 0x80 {
        1
    } else if code(c) < 0x800 {
        2
    } else if code(c) < 0x10000 {
        3
    } else {
        4
    }
}

/// The number of bytes that the text `s` takes in UTF-8 (what `str::len` gives).
pub open spec fn utf8_len(s: Seq<char>) -> int
    decreases s.len(),
{
    if s.len() == 0 {
        0
    } else {
        utf8_len(s.drop_last()) + utf8_width(s.last())
    }
}

/// The number of bytes that `s` takes in UTF-8.
pub fn utf8_length(s: &[char]) -> (r: usize)
    requires
        4 * s.len() <= usize::MAX,
    ensures
        r == utf8_len(s@),
{
    let mut r: usize = 0;
    let mut i: usize = 0;
    assert(s@.take(0) =~= Seq::<char>::empty());
    while i < s.len()
        invariant
            i <= s.len(),
            4 * s.len() <= usize::MAX,
            r == utf8_len(s@.take(i as int)),
            r <= 4 * i,
        decreases s.len() - i,
    {
        assert(s@.take(i + 1).drop_last() =~= s@.take(i as int));
        let v = s[i] as u32;
        if v < 0x80 {
            r = r + 1;
        } else if v < 0x800 {
            r = r + 2;
        } else if v < 0x10000 {
            r = r + 3;
        } else {
            r = r + 4;
        }
        i += 1;
    }
    assert(s@.take(i as int) =~= s@);
    r
}

/// A copy of the characters of `s` from position `from` up to (not including) `to`.
pub fn sub_chars(s: &[char], from: usize, to: usize) -> (r: Vec<char>)
    requires
        from <= to <= s.len(),
    ensures
        r@ == s@.subrange(from as int, to as int),
{
    let mut r: Vec<char> = Vec::new();
    let mut i: usize = from;
    while i < to
        invariant
            from <= i <= to <= s.len(),
            r@ == s@.subrange(from as int, i as int),
        decreases to - i,
    {
        r.push(s[i]);
        i += 1;
        assert(r@ =~= s@.subrange(from as int, i as int));
    }
    r
}

/// The UTF-8 length of a prefix is at most that of the whole text.
pub proof fn lemma_utf8_len_prefix(s: Seq<char>, k: int)
    requires
        0 <= k <= s.len(),
    ensures
        0 <= utf8_len(s.take(k)) <= utf8_len(s),
    decreases s.len(),
{
    if k == s.len() {
        assert(s.take(k) =~= s);
        if s.len() > 0 {
            lemma_utf8_len_prefix(s.drop_last(), 0);
        }
    } else {
        assert(s.drop_last().take(k) =~= s.take(k));
        lemma_utf8_len_prefix(s.drop_last(), k);
    }
}

/// Whether `s` takes fewer than `n` bytes in UTF-8.
pub fn utf8_len_below(s: &[char], n: usize) -> (r: bool)
    ensures
        r == (utf8_len(s@) < n),
{
    if n == 0 {
        proof {
            lemma_utf8_len_prefix(s@, 0);
        }
        return false;
    }
    let mut total: usize = 0;
    let mut i: usize = 0;
    assert(s@.take(0) =~= Seq::<char>::empty());
    while i < s.len()
        invariant
            i <= s.len(),
            total == utf8_len(s@.take(i as int)),
            total < n,
        decreases s.len() - i,
    {
        assert(s@.take(i + 1).drop_last() =~= s@.take(i as int));
        let v = s[i] as u32;
        let w: usize = if v < 0x80 {
            1
        } else if v < 0x800 {
            2
        } else if v < 0x10000 {
            3
        } else {
            4
        };
        if w >= n - total {
            proof {
                lemma_utf8_len_prefix(s@, i + 1);
            }
            return false;
        }
        total = total + w;
        i += 1;
    }
    assert(s@.take(i as int) =~= s@);
    true
}

/// Whether `s` holds a space.
pub fn has_space(s: &[char]) -> (r: bool)
    ensures
        r == (exists|i: int| 0 <= i < s@.len() && s@[i] == ' '),
{
    let mut i: usize = 0;
    while i < s.len()
        invariant
            i <= s.len(),
            forall|j: int| 0 <= j < i ==> s@[j] != ' ',
        decreases s.len() - i,
    {
        if s[i] == ' ' {
            return true;
        }
        i += 1;
    }
    false
}

proof fn lemma_digit_char_code(d: int)
    requires
        0 <= d < 10,
    ensures
        code(digit_char(d)) == 48 + d,
{
}

proof fn lemma_decimal_value(n: nat)
    ensures
        digits_value(decimal(n)) == n,
        all_digits(decimal(n)),
        decimal(n).len() >= 1,
    decreases n,
{
    lemma_decimal_digits(n);
    if n >= 10 {
        lemma_decimal_value(n / 10);
        let d = decimal(n);
        assert(d.drop_last() =~= decimal(n / 10));
        lemma_digit_char_code((n % 10) as int);
        assert(d.last() == digit_char((n % 10) as int));
        assert(digits_value(d) == digits_value(d.drop_last()) * 10 + (code(d.last()) - 48));
        assert(digits_value(d) == digits_value(decimal(n / 10)) * 10 + (n % 10));
        assert((n / 10) * 10 + n % 10 == n);
    } else {
        let d = decimal(n);
        assert(d.drop_last() =~= Seq::<char>::empty());
        assert(digits_value(d.drop_last()) == 0);
        lemma_digit_char_code(n as int);
        assert(d.last() == digit_char(n as int));
        assert(digits_value(d) == digits_value(d.drop_last()) * 10 + (code(d.last()) - 48));
    }
}

/// Reading back the decimal form of a number gives the number.
pub proof fn lemma_parse_decimal(n: usize)
    ensures
        parsed_usize(decimal(n as nat)) == Some(n),
{
    lemma_decimal_value(n as nat);
    let d = decimal(n as nat);
    assert(is_digit(d[0]));
    assert(d[0] != '+');
    assert(unsigned_digits(d) == d);
}


/* ------------------------------------------------------------------ *
 * Slicing text by byte offsets                                       *
 * ------------------------------------------------------------------ */

/// The byte offset in UTF-8 at which character `c` of `s` starts (the
/// length of `s` in bytes for `c == s.len()`).
pub open spec fn byte_offset(s: Seq<char>, c: int) -> int {
    utf8_len(s.take(c))
}

/// Byte `b` of `s` starts a character, or is the end of the text.
pub open spec fn is_char_boundary(s: Seq<char>, b: int) -> bool {
    exists|c: int| 0 <= c <= s.len() && #[trigger] byte_offset(s, c) == b
}

/// The index of the character that starts at byte `b` (for a boundary).
pub open spec fn char_index(s: Seq<char>, b: int) -> int {
    choose|c: int| 0 <= c <= s.len() && #[trigger] byte_offset(s, c) == b
}

/// Every byte range `i..i + n` that the windows take, for each `i` below the
/// number of characters less `n`, starts and ends on a character boundary;
/// the text has at least `n` characters.
pub open spec fn byte_windows_ok(s: Seq<char>, n: int) -> bool {
    &&& n <= s.len()
    &&& forall|i: int| 0 <= i < s.len() - n ==> #[trigger] is_char_boundary(s, i)
    &&& forall|i: int| n <= i < s.len() ==> #[trigger] is_char_boundary(s, i)
}

/// The texts of the byte ranges `i..i + n` of `s` (what `&s[i..i + n]` gives
/// for a string), for each `i` below the number of characters less `n`.
pub open spec fn byte_windows(s: Seq<char>, n: int) -> Seq<Seq<char>> {
    Seq::new((s.len() - n) as nat, |i: int| s.subrange(char_index(s, i), char_index(s, i + n)))
}

/// Each character moves the byte offset on by its width, one to four bytes.
pub proof fn lemma_byte_offset_step(s: Seq<char>, c: int)
    requires
        0 <= c < s.len(),
    ensures
        byte_offset(s, c + 1) == byte_offset(s, c) + utf8_width(s[c]),
        1 <= utf8_width(s[c]) <= 4,
{
    assert(s.take(c + 1).drop_last() =~= s.take(c));
}

/// Byte offsets grow strictly with the character index.
pub proof fn lemma_byte_offset_increasing(s: Seq<char>, c1: int, c2: int)
    requires
        0 <= c1 < c2 <= s.len(),
    ensures
        byte_offset(s, c1) < byte_offset(s, c2),
    decreases c2 - c1,
{
    lemma_byte_offset_step(s, c1);
    if c1 + 1 < c2 {
        lemma_byte_offset_increasing(s, c1 + 1, c2);
    }
}

/// At a boundary, `char_index` is the one character that starts there.
pub proof fn lemma_char_index(s: Seq<char>, c: int)
    requires
        0 <= c <= s.len(),
    ensures
        is_char_boundary(s, byte_offset(s, c)),
        char_index(s, byte_offset(s, c)) == c,
{
    let b = byte_offset(s, c);
    assert(0 <= c <= s.len() && byte_offset(s, c) == b);
    let d = char_index(s, b);
    if d < c {
        lemma_byte_offset_increasing(s, d, c);
    } else if c < d {
        lemma_byte_offset_increasing(s, c, d);
    }
}

/// A text whose windows fit takes each of them on character boundaries.
proof fn lemma_window_boundaries(s: Seq<char>, n: int, i: int)
    requires
        byte_windows_ok(s, n),
        0 <= i < s.len() - n,
    ensures
        is_char_boundary(s, i),
        is_char_boundary(s, i + n),
{
    assert(n <= i + n < s.len());
}

/// The number of bytes that `c` takes in UTF-8.
fn char_width(c: char) -> (r: usize)
    ensures
        r == utf8_width(c),
{
    let v = c as u32;
    if v < 0x80 {
        1
    } else if v < 0x800 {
        2
    } else if v < 0x10000 {
        3
    } else {
        4
    }
}

/// Moves `c` (with its byte offset `off`) on to the first character that does
/// not start before byte `target`.
fn advance_to(s: &[char], c: usize, off: u128, target: u128) -> (r: (usize, u128))
    requires
        c <= s@.len(),
        off == byte_offset(s@, c as int),
        off <= 4 * c,
        forall|d: int| 0 <= d < c ==> #[trigger] byte_offset(s@, d) < target,
    ensures
        c <= r.0 <= s@.len(),
        r.1 == byte_offset(s@, r.0 as int),
        r.1 <= 4 * r.0,
        forall|d: int| 0 <= d < r.0 ==> #[trigger] byte_offset(s@, d) < target,
        r.0 < s@.len() ==> target <= r.1,
{
    let mut c = c;
    let mut off = off;
    while c < s.len() && off < target
        invariant
            c <= s@.len(),
            off == byte_offset(s@, c as int),
            off <= 4 * c,
            forall|d: int| 0 <= d < c ==> #[trigger] byte_offset(s@, d) < target,
        decreases s@.len() - c,
    {
        proof {
            lemma_byte_offset_step(s@, c as int);
        }
        let w = char_width(s[c]);
        off = off + w as u128;
        c = c + 1;
    }
    (c, off)
}

/// The character ranges of the byte ranges `i..i + n` of `s` (see
/// `byte_windows`); `None` when one of them does not start or end on a
/// character boundary, or the text has fewer than `n` characters.
pub fn byte_window_ranges(s: &[char], n: usize) -> (r: Option<Vec<(usize, usize)>>)
    ensures
        r is Some <==> byte_windows_ok(s@, n as int),
        r matches Some(v) ==> v@.len() == s@.len() - n && forall|i: int|
            0 <= i < v@.len() ==> #[trigger] v@[i].0 <= v@[i].1 <= s@.len() && s@.subrange(
                v@[i].0 as int,
                v@[i].1 as int,
            ) == byte_windows(s@, n as int)[i],
{
    if n > s.len() {
        return None;
    }
    let len = s.len();
    let m = len - n;
    let mut v: Vec<(usize, usize)> = Vec::new();
    let mut a: usize = 0;
    let mut a_off: u128 = 0;
    let mut b: usize = 0;
    let mut b_off: u128 = 0;
    let mut i: usize = 0;
    assert(s@.take(0) =~= Seq::<char>::empty());
    while i < m
        invariant
            len == s@.len(),
            i <= m,
            m == s@.len() - n,
            a <= s@.len(),
            b <= s@.len(),
            a_off == byte_offset(s@, a as int),
            b_off == byte_offset(s@, b as int),
            a_off <= 4 * a,
            b_off <= 4 * b,
            forall|d: int| 0 <= d < a ==> #[trigger] byte_offset(s@, d) < i,
            forall|d: int| 0 <= d < b ==> #[trigger] byte_offset(s@, d) < i + n,
            v@.len() == i,
            forall|j: int| 0 <= j < i ==> #[trigger] is_char_boundary(s@, j),
            forall|j: int| n <= j < i + n ==> #[trigger] is_char_boundary(s@, j),
            forall|j: int|
                0 <= j < i ==> #[trigger] v@[j].0 <= v@[j].1 <= s@.len() && s@.subrange(v@[j].0 as int, v@[j].1 as int)
                    == byte_windows(s@, n as int)[j],
        decreases m - i,
    {
        let end = i + n;
        let (a2, a2_off) = advance_to(s, a, a_off, i as u128);
        let (b2, b2_off) = advance_to(s, b, b_off, end as u128);
        if a2_off != i as u128 || b2_off != end as u128 {
            proof {
                if a2_off != i {
                    assert(!is_char_boundary(s@, i as int)) by {
                        if is_char_boundary(s@, i as int) {
                            let c = choose|c: int| 0 <= c <= s@.len() && #[trigger] byte_offset(s@, c) == i;
                            if c > a2 {
                                lemma_byte_offset_increasing(s@, a2 as int, c);
                            }
                        }
                    }
                } else {
                    assert(!is_char_boundary(s@, i + n)) by {
                        if is_char_boundary(s@, i + n) {
                            let c = choose|c: int| 0 <= c <= s@.len() && #[trigger] byte_offset(s@, c) == i + n;
                            if c > b2 {
                                lemma_byte_offset_increasing(s@, b2 as int, c);
                            }
                        }
                    }
                }
                let ii = i as int;
                assert(!(is_char_boundary(s@, ii) && is_char_boundary(s@, ii + n)));
                if byte_windows_ok(s@, n as int) {
                    lemma_window_boundaries(s@, n as int, ii);
                }
            }
            return None;
        }
        proof {
            lemma_char_index(s@, a2 as int);
            lemma_char_index(s@, b2 as int);
            if b2 < a2 {
                lemma_byte_offset_increasing(s@, b2 as int, a2 as int);
            }
        }
        v.push((a2, b2));
        a = a2;
        a_off = a2_off;
        b = b2;
        b_off = b2_off;
        i += 1;
        proof {
            assert forall|d: int| 0 <= d < a implies #[trigger] byte_offset(s@, d) < i by {
                lemma_byte_offset_increasing(s@, d, a as int);
            }
            assert forall|d: int| 0 <= d < b implies #[trigger] byte_offset(s@, d) < i + n by {
                lemma_byte_offset_increasing(s@, d, b as int);
            }
        }
    }
    Some(v)
}

} // verus!
