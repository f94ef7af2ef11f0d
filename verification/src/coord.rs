//! Spreadsheet coordinates and the label codec.
//!
//! A label is a run of ASCII letters followed by a run of ASCII digits
//! (`A1`, `zz12`).  The letters are a bijective base-26 numeral
//! (`A` = 1, ..., `Z` = 26, `AA` = 27, ...) naming a 1-based column;
//! the digits name a 1-based row.  A `Coord` stores both zero-based.
//!
//! A string that does not have this shape, or whose column or row
//! value is zero or does not fit in the machine word, is not a
//! coordinate: `parse` returns `None` and never panics.

use vstd::prelude::*;

use crate::digits::{all_digits, dec_rep, dec_val, digit_val, is_digit, lemma_dec_rep,
    lemma_dec_val_prefix, push_dec};
use crate::text::{chars_of, string_of};

verus! {

/// A zero-based (column, row) pair addressing one cell.
#[derive(Debug, PartialEq, Eq, Structural, Clone, Copy)]
pub struct Coord {
    pub column: usize,
    pub row: usize,
}

/// `c` is an ASCII letter, either case.
pub open spec fn is_letter(c: char) -> bool {
    (65 <= c as u32 && c as u32 <= 90) || (97 <= c as u32 && c as u32 <= 122)
}

/// The bijective base-26 value of a letter: `A` and `a` are 1, `Z`
/// and `z` are 26.
pub open spec fn letter_val(c: char) -> int {
    if c as u32 <= 90 {
        c as u32 - 64
    } else {
        c as u32 - 96
    }
}

/// The upper-case letter for a value in `0..26`.
pub open spec fn letter_of(d: int) -> char {
    if d == 0 {
        'A'
    } else if d == 1 {
        'B'
    } else if d == 2 {
        'C'
    } else if d == 3 {
        'D'
    } else if d == 4 {
        'E'
    } else if d == 5 {
        'F'
    } else if d == 6 {
        'G'
    } else if d == 7 {
        'H'
    } else if d == 8 {
        'I'
    } else if d == 9 {
        'J'
    } else if d == 10 {
        'K'
    } else if d == 11 {
        'L'
    } else if d == 12 {
        'M'
    } else if d == 13 {
        'N'
    } else if d == 14 {
        'O'
    } else if d == 15 {
        'P'
    } else if d == 16 {
        'Q'
    } else if d == 17 {
        'R'
    } else if d == 18 {
        'S'
    } else if d == 19 {
        'T'
    } else if d == 20 {
        'U'
    } else if d == 21 {
        'V'
    } else if d == 22 {
        'W'
    } else if d == 23 {
        'X'
    } else if d == 24 {
        'Y'
    } else {
        'Z'
    }
}

/// Every character of `s` is an ASCII letter.
pub open spec fn all_letters(s: Seq<char>) -> bool {
    forall|i: int| 0 <= i < s.len() ==> is_letter(#[trigger] s[i])
}

/// The 1-based column named by a letter run, read as bijective
/// base 26.
pub open spec fn col_val(s: Seq<char>) -> int
    decreases s.len(),
{
    if s.len() == 0 {
        0
    } else {
        col_val(s.drop_last()) * 26 + letter_val(s.last())
    }
}

/// The canonical (upper-case) letter run for a 1-based column value;
/// empty exactly for 0.
pub open spec fn col_rep(n: nat) -> Seq<char>
    decreases n,
{
    if n == 0 {
        Seq::empty()
    } else {
        col_rep(((n - 1) / 26) as nat).push(letter_of((n - 1) % 26))
    }
}

/// The number of leading ASCII letters of `s`.
pub open spec fn letters_run(s: Seq<char>) -> int
    decreases s.len(),
{
    if s.len() == 0 || !is_letter(s[0]) {
        0
    } else {
        1 + letters_run(s.skip(1))
    }
}

/// `s` has the label shape: at least one letter, then at least one
/// digit, and nothing else.
pub open spec fn spec_is_coord(s: Seq<char>) -> bool {
    let k = letters_run(s);
    &&& k >= 1
    &&& k < s.len()
    &&& forall|i: int| k <= i < s.len() ==> is_digit(#[trigger] s[i])
}

/// What `parse` returns: the zero-based coordinate of a well-shaped
/// label whose column and row values are at least 1 and fit in the
/// machine word; `None` otherwise.
pub open spec fn spec_parse(s: Seq<char>) -> Option<Coord> {
    let k = letters_run(s);
    let col = col_val(s.take(k));
    let row = dec_val(s.skip(k));
    if spec_is_coord(s) && col <= usize::MAX && 1 <= row && row <= usize::MAX {
        Some(Coord { column: (col - 1) as usize, row: (row - 1) as usize })
    } else {
        None
    }
}

/// What `stringify` returns: the canonical upper-case label of a
/// coordinate.
pub open spec fn spec_stringify(c: Coord) -> Seq<char> {
    col_rep((c.column + 1) as nat) + dec_rep((c.row + 1) as nat)
}

proof fn lemma_col_val_bounds(s: Seq<char>)
    requires
        all_letters(s),
    ensures
        col_val(s) >= 0,
        s.len() >= 1 ==> col_val(s) >= 1,
    decreases s.len(),
{
    if s.len() > 0 {
        assert(all_letters(s.drop_last()));
        lemma_col_val_bounds(s.drop_last());
    }
}

proof fn lemma_col_val_prefix(s: Seq<char>, j: int)
    requires
        all_letters(s),
        0 <= j <= s.len(),
    ensures
        col_val(s.take(j)) <= col_val(s),
    decreases s.len(),
{
    if j == s.len() {
        assert(s.take(j) =~= s);
    } else {
        assert(all_letters(s.drop_last()));
        assert(s.take(j) =~= s.drop_last().take(j));
        lemma_col_val_prefix(s.drop_last(), j);
        lemma_col_val_bounds(s.drop_last());
    }
}

proof fn lemma_col_rep(n: nat)
    ensures
        all_letters(col_rep(n)),
        col_val(col_rep(n)) == n,
        n >= 1 ==> col_rep(n).len() >= 1,
    decreases n,
{
    if n > 0 {
        lemma_col_rep(((n - 1) / 26) as nat);
        let s = col_rep(n);
        assert(s.drop_last() =~= col_rep(((n - 1) / 26) as nat));
        assert(s.last() == letter_of((n - 1) % 26));
        assert(letter_val(letter_of((n - 1) % 26)) == (n - 1) % 26 + 1);
    }
}

proof fn lemma_letters_run_is(s: Seq<char>, k: int)
    requires
        0 <= k <= s.len(),
        forall|i: int| 0 <= i < k ==> is_letter(#[trigger] s[i]),
        k < s.len() ==> !is_letter(s[k]),
    ensures
        letters_run(s) == k,
    decreases s.len(),
{
    if s.len() == 0 {
    } else if k == 0 {
    } else {
        let t = s.skip(1);
        assert(forall|i: int| 0 <= i < k - 1 ==> #[trigger] t[i] == s[i + 1]);
        lemma_letters_run_is(t, k - 1);
    }
}

/// The first index of `v` that does not hold an ASCII letter.
fn letters_run_exec(v: &Vec<char>) -> (k: usize)
    ensures
        k <= v.len(),
        k as int == letters_run(v@),
        forall|i: int| 0 <= i < k ==> is_letter(#[trigger] v@[i]),
{
    let n = v.len();
    let mut k: usize = 0;
    let mut stop = false;
    while k < n && !stop
        invariant
            k <= n,
            n == v.len(),
            forall|i: int| 0 <= i < k ==> is_letter(#[trigger] v@[i]),
            stop ==> k < n && !is_letter(v@[k as int]),
        decreases n - k + (if stop { 0int } else { 1 }),
    {
        let c = v[k];
        let u = c as u32;
        if (65 <= u && u <= 90) || (97 <= u && u <= 122) {
            k = k + 1;
        } else {
            stop = true;
        }
    }
    proof {
        lemma_letters_run_is(v@, k as int);
    }
    k
}

impl Coord {
    /// Parses a label into a coordinate; `None` if the string is not
    /// a well-shaped label or its column or row value is zero or does
    /// not fit in the machine word.
    pub fn parse(input: &str) -> (r: Option<Coord>)
        ensures
            r == spec_parse(input@),
    {
        let v = chars_of(input);
        Self::parse_chars(&v)
    }

    /// `parse`, on an already exploded character vector.
    pub fn parse_chars(v: &Vec<char>) -> (r: Option<Coord>)
        ensures
            r == spec_parse(v@),
    {
        let ghost s = v@;
        let n = v.len();
        let k = letters_run_exec(v);
        if k == 0 {
            return None;
        }
        if k == n {
            return None;
        }
        // The digit run and the 1-based row value.
        let mut i: usize = k;
        let mut row10: usize = 0;
        while i < n
            invariant
                k <= i <= n,
                n == v.len(),
                s == v@,
                letters_run(s) == k as int,
                forall|j: int| k <= j < i ==> is_digit(#[trigger] s[j]),
                row10 as int == dec_val(s.subrange(k as int, i as int)),
            decreases n - i,
        {
            let c = v[i];
            let u = c as u32;
            if !(48 <= u && u <= 57) {
                proof {
                    assert(!is_digit(s[i as int]));
                }
                return None;
            }
            let d = (u - 48) as usize;
            let next = match row10.checked_mul(10) {
                Some(x) => x.checked_add(d),
                None => None,
            };
            match next {
                Some(x) => {
                    row10 = x;
                },
                None => {
                    proof {
                        lemma_overflow_means_none(s, k as int, i as int, row10 as int, d as int);
                    }
                    return None;
                },
            }
            proof {
                let t = s.subrange(k as int, i + 1);
                assert(t.drop_last() =~= s.subrange(k as int, i as int));
                assert(t.last() == s[i as int]);
            }
            i = i + 1;
        }
        proof {
            assert(s.subrange(k as int, n as int) =~= s.skip(k as int));
        }
        if row10 == 0 {
            return None;
        }
        // The letter run and the 1-based column value.
        let mut j: usize = 0;
        let mut col: usize = 0;
        while j < k
            invariant
                j <= k <= n,
                n == v.len(),
                s == v@,
                letters_run(s) == k as int,
                forall|i2: int| 0 <= i2 < k ==> is_letter(#[trigger] s[i2]),
                col as int == col_val(s.take(j as int)),
            decreases k - j,
        {
            let c = v[j];
            let u = c as u32;
            let d: usize = if u <= 90 {
                (u - 64) as usize
            } else {
                (u - 96) as usize
            };
            assert(d as int == letter_val(s[j as int]));
            let next = match col.checked_mul(26) {
                Some(x) => x.checked_add(d),
                None => None,
            };
            match next {
                Some(x) => {
                    col = x;
                },
                None => {
                    proof {
                        lemma_col_overflow_means_none(s, k as int, j as int, col as int, d as int);
                    }
                    return None;
                },
            }
            proof {
                let t = s.take(j + 1);
                assert(t.drop_last() =~= s.take(j as int));
                assert(t.last() == s[j as int]);
            }
            j = j + 1;
        }
        proof {
            assert(all_letters(s.take(k as int)));
            lemma_col_val_bounds(s.take(k as int));
        }
        Some(Coord { column: col - 1, row: row10 - 1 })
    }

    /// The canonical upper-case label of this coordinate.
    pub fn stringify(&self) -> (r: String)
        requires
            self.column < usize::MAX,
            self.row < usize::MAX,
        ensures
            r@ == spec_stringify(*self),
    {
        let mut out: Vec<char> = Vec::new();
        push_col(self.column + 1, &mut out);
        push_dec((self.row + 1) as u128, &mut out);
        string_of(&out)
    }

    /// The label shape check: a run of letters, then a run of digits,
    /// both non-empty, and nothing else.
    pub fn is_coord(item: &str) -> (b: bool)
        ensures
            b == spec_is_coord(item@),
    {
        let v = chars_of(item);
        Self::is_coord_chars(&v)
    }

    /// `is_coord`, on an already exploded character vector.
    pub fn is_coord_chars(v: &Vec<char>) -> (b: bool)
        ensures
            b == spec_is_coord(v@),
    {
        let ghost s = v@;
        let n = v.len();
        let k = letters_run_exec(v);
        if k == 0 || k == n {
            return false;
        }
        let mut i: usize = k;
        while i < n
            invariant
                k <= i <= n,
                1 <= k < n,
                n == v.len(),
                s == v@,
                letters_run(s) == k as int,
                forall|j: int| k <= j < i ==> is_digit(#[trigger] s[j]),
            decreases n - i,
        {
            let c = v[i];
            let u = c as u32;
            if !(48 <= u && u <= 57) {
                proof {
                    assert(!is_digit(s[i as int]));
                }
                return false;
            }
            i = i + 1;
        }
        true
    }
}

/// A digit-run value that has already exceeded the machine word means
/// the label cannot parse.
proof fn lemma_overflow_means_none(s: Seq<char>, k: int, i: int, row10: int, d: int)
    requires
        0 <= k <= i < s.len(),
        letters_run(s) == k,
        forall|j: int| k <= j < i ==> is_digit(#[trigger] s[j]),
        is_digit(s[i]),
        d == digit_val(s[i]),
        row10 == dec_val(s.subrange(k, i)),
        row10 * 10 + d > usize::MAX,
    ensures
        spec_parse(s) == Option::<Coord>::None,
{
    if spec_is_coord(s) {
        let t = s.skip(k);
        assert(forall|j: int| 0 <= j < t.len() ==> #[trigger] t[j] == s[j + k]);
        assert(all_digits(t));
        let u = s.subrange(k, i + 1);
        assert(u.drop_last() =~= s.subrange(k, i));
        assert(u.last() == s[i]);
        assert(dec_val(u) == row10 * 10 + d);
        assert(u =~= t.take(i + 1 - k));
        lemma_dec_val_prefix(t, i + 1 - k);
        assert(dec_val(t) > usize::MAX);
    }
}

/// A letter-run value that has already exceeded the machine word means
/// the label cannot parse.
proof fn lemma_col_overflow_means_none(s: Seq<char>, k: int, j: int, col: int, d: int)
    requires
        0 <= j < k <= s.len(),
        letters_run(s) == k,
        forall|i: int| 0 <= i < k ==> is_letter(#[trigger] s[i]),
        d == letter_val(s[j]),
        1 <= d <= 26,
        col == col_val(s.take(j)),
        col * 26 + d > usize::MAX,
    ensures
        spec_parse(s) == Option::<Coord>::None,
{
    if spec_is_coord(s) {
        let w = s.take(k);
        assert(forall|i: int| 0 <= i < w.len() ==> #[trigger] w[i] == s[i]);
        assert(all_letters(w));
        let u = s.take(j + 1);
        assert(u.drop_last() =~= s.take(j));
        assert(u.last() == s[j]);
        assert(col_val(u) == col * 26 + d);
        assert(u =~= w.take(j + 1));
        lemma_col_val_prefix(w, j + 1);
        assert(col_val(w) > usize::MAX);
    }
}

/// The upper-case letter for a value in `0..26`, as executable code.
fn letter_char(d: u32) -> (c: char)
    requires
        d < 26,
    ensures
        c == letter_of(d as int),
{
    if d == 0 {
        'A'
    } else if d == 1 {
        'B'
    } else if d == 2 {
        'C'
    } else if d == 3 {
        'D'
    } else if d == 4 {
        'E'
    } else if d == 5 {
        'F'
    } else if d == 6 {
        'G'
    } else if d == 7 {
        'H'
    } else if d == 8 {
        'I'
    } else if d == 9 {
        'J'
    } else if d == 10 {
        'K'
    } else if d == 11 {
        'L'
    } else if d == 12 {
        'M'
    } else if d == 13 {
        'N'
    } else if d == 14 {
        'O'
    } else if d == 15 {
        'P'
    } else if d == 16 {
        'Q'
    } else if d == 17 {
        'R'
    } else if d == 18 {
        'S'
    } else if d == 19 {
        'T'
    } else if d == 20 {
        'U'
    } else if d == 21 {
        'V'
    } else if d == 22 {
        'W'
    } else if d == 23 {
        'X'
    } else if d == 24 {
        'Y'
    } else {
        'Z'
    }
}

/// Appends the bijective base-26 letter run of a 1-based column value.
fn push_col(n: usize, out: &mut Vec<char>)
    ensures
        final(out)@ == old(out)@ + col_rep(n as nat),
    decreases n,
{
    if n == 0 {
        assert(out@ =~= old(out)@ + col_rep(0));
        return ;
    }
    push_col((n - 1) / 26, out);
    out.push(letter_char(((n - 1) % 26) as u32));
    assert(out@ =~= old(out)@ + col_rep(n as nat));
}

/// Codec round trip: every coordinate whose fields leave room for the
/// 1-based external form comes back unchanged from its own label.
pub proof fn lemma_parse_stringify_roundtrip(c: Coord)
    requires
        c.column < usize::MAX,
        c.row < usize::MAX,
    ensures
        spec_parse(spec_stringify(c)) == Some(c),
{
    let cl = col_rep((c.column + 1) as nat);
    let dl = dec_rep((c.row + 1) as nat);
    let s = spec_stringify(c);
    lemma_col_rep((c.column + 1) as nat);
    lemma_dec_rep((c.row + 1) as nat);
    assert(s == cl + dl);
    assert(forall|i: int| 0 <= i < cl.len() ==> #[trigger] s[i] == cl[i]);
    assert(forall|i: int| cl.len() <= i < s.len() ==> #[trigger] s[i] == dl[i - cl.len()]);
    lemma_letters_run_is(s, cl.len() as int);
    assert(s.take(cl.len() as int) =~= cl);
    assert(s.skip(cl.len() as int) =~= dl);
    assert(spec_is_coord(s));
    assert(col_val(s.take(letters_run(s))) == c.column + 1);
    assert(dec_val(s.skip(letters_run(s))) == c.row + 1);
}


} // verus!
