//! The grid backing store: rows of raw cell text.
//!
//! A sheet is built from one text blob and a field separator: line
//! endings are normalized (`\r\n` and lone `\r` become `\n`), outer
//! whitespace is trimmed, the text splits into lines and each line
//! into fields.  Rows may have different lengths; a lookup outside
//! the grid answers `None` rather than failing.

use vstd::prelude::*;

use crate::coord::Coord;
use crate::text::{chars_of, join_on, lemma_join_split, normalize, normalize_chars, split_chars,
    split_on, string_of, trim, trim_chars};

verus! {

/// A jagged grid of cell strings and the separator it was built
/// with.
#[derive(Debug)]
pub struct Sheet {
    pub data: Vec<Vec<String>>,
    pub separator: String,
}

/// The grid a text blob and a separator describe.
pub open spec fn spec_construct(s: Seq<char>, sep: Seq<char>) -> Seq<Seq<Seq<char>>> {
    split_on(trim(normalize(s)), seq!['\n']).map_values(|line: Seq<char>| split_on(line, sep))
}

/// Bounds-checked lookup in a grid model.
pub open spec fn spec_get(cells: Seq<Seq<Seq<char>>>, c: Coord) -> Option<Seq<char>> {
    if c.row < cells.len() && c.column < cells[c.row as int].len() {
        Some(cells[c.row as int][c.column as int])
    } else {
        None
    }
}

/// The text a grid renders to: fields joined by the separator, rows
/// joined by newlines.
pub open spec fn spec_render_sheet(cells: Seq<Seq<Seq<char>>>, sep: Seq<char>) -> Seq<char> {
    join_on(cells.map_values(|row: Seq<Seq<char>>| join_on(row, sep)), seq!['\n'])
}

/// Appends the characters of `add`.
fn extend_chars(out: &mut Vec<char>, add: &Vec<char>)
    ensures
        final(out)@ == old(out)@ + add@,
{
    let mut j: usize = 0;
    while j < add.len()
        invariant
            j <= add.len(),
            out@ == old(out)@ + add@.take(j as int),
        decreases add.len() - j,
    {
        out.push(add[j]);
        proof {
            assert(add@.take(j + 1) =~= add@.take(j as int).push(add@[j as int]));
            assert(old(out)@ + add@.take(j + 1) =~= (old(out)@ + add@.take(j as int)).push(
                add@[j as int],
            ));
        }
        j = j + 1;
    }
    proof {
        assert(add@.take(add@.len() as int) =~= add@);
    }
}

impl Sheet {
    /// The mathematical grid this sheet holds.
    pub open spec fn cells(&self) -> Seq<Seq<Seq<char>>> {
        self.data.deep_view()
    }

    /// Builds the grid from a text blob and a separator.
    pub fn new(input: &str, separator: &str) -> (r: Sheet)
        requires
            separator@.len() >= 1,
        ensures
            r.cells() == spec_construct(input@, separator@),
            r.separator@ == separator@,
    {
        Sheet { data: Self::parse(input, separator), separator: separator.to_owned() }
    }

    /// Normalizes, trims and splits the input into the grid.
    fn parse(input: &str, separator: &str) -> (d: Vec<Vec<String>>)
        requires
            separator@.len() >= 1,
        ensures
            d.deep_view() == spec_construct(input@, separator@),
    {
        let raw = chars_of(input);
        let norm = normalize_chars(&raw);
        let trimmed = trim_chars(&norm);
        let mut nl: Vec<char> = Vec::new();
        nl.push('\n');
        proof {
            assert(nl@ =~= seq!['\n']);
        }
        let lines = split_chars(&trimmed, &nl);
        let sepv = chars_of(separator);
        let ghost lv = lines.deep_view();
        let ghost f = |line: Seq<char>| split_on(line, separator@);
        let mut out: Vec<Vec<String>> = Vec::new();
        let mut i: usize = 0;
        proof {
            assert(out.deep_view() =~~= lv.take(0).map_values(f));
        }
        while i < lines.len()
            invariant
                i <= lines.len(),
                lv == lines.deep_view(),
                sepv@ == separator@,
                separator@.len() >= 1,
                f == (|line: Seq<char>| split_on(line, separator@)),
                out.deep_view() == lv.take(i as int).map_values(f),
            decreases lines.len() - i,
        {
            let row_chars = split_chars(&lines[i], &sepv);
            let ghost rv = row_chars.deep_view();
            proof {
                assert(lines[i as int].deep_view() =~= lines[i as int]@);
                assert(lines[i as int].deep_view() == lv[i as int]);
                assert(rv == split_on(lv[i as int], separator@));
            }
            let mut row: Vec<String> = Vec::new();
            let mut j: usize = 0;
            proof {
                assert(row.deep_view() =~~= rv.take(0));
            }
            while j < row_chars.len()
                invariant
                    j <= row_chars.len(),
                    rv == row_chars.deep_view(),
                    row.deep_view() == rv.take(j as int),
                decreases row_chars.len() - j,
            {
                let ghost rd = row.deep_view();
                let cell = string_of(&row_chars[j]);
                proof {
                    assert(row_chars[j as int].deep_view() == rv[j as int]);
                    assert(cell@ == rv[j as int]);
                }
                row.push(cell);
                proof {
                    assert(row.deep_view() =~~= rd.push(rv[j as int]));
                    assert(rv.take(j + 1) =~= rv.take(j as int).push(rv[j as int]));
                }
                j = j + 1;
            }
            proof {
                assert(rv.take(rv.len() as int) =~= rv);
            }
            let ghost od = out.deep_view();
            out.push(row);
            proof {
                assert(out.deep_view() =~~= od.push(rv));
                assert(lv.take(i + 1) =~= lv.take(i as int).push(lv[i as int]));
                assert(lv.take(i + 1).map_values(f) =~~= lv.take(i as int).map_values(f).push(
                    f(lv[i as int]),
                ));
            }
            i = i + 1;
        }
        proof {
            assert(lv.take(lv.len() as int) =~= lv);
            assert(out.deep_view() == lv.map_values(f));
        }
        out
    }

    /// Bounds-checked lookup; `None` for a coordinate outside the
    /// grid.
    pub fn get(&self, coord: &Coord) -> (r: Option<&String>)
        ensures
            match r {
                Some(t) => spec_get(self.cells(), *coord) == Some(t@),
                None => spec_get(self.cells(), *coord) is None,
            },
    {
        if coord.row < self.data.len() {
            let row = &self.data[coord.row];
            proof {
                assert(self.data[coord.row as int].deep_view() == self.cells()[coord.row as int]);
            }
            if coord.column < row.len() {
                proof {
                    assert(row[coord.column as int]@ == self.cells()[coord.row as int][
                        coord.column as int]);
                }
                Some(&row[coord.column])
            } else {
                None
            }
        } else {
            None
        }
    }

    /// Renders the grid back to text: the inverse of construction
    /// for input that was already normalized and trimmed.
    pub fn render(&self) -> (r: String)
        ensures
            r@ == spec_render_sheet(self.cells(), self.separator@),
    {
        let ghost cv = self.cells();
        let ghost g = |row: Seq<Seq<char>>| join_on(row, self.separator@);
        let ghost rows = cv.map_values(g);
        let sepv = chars_of(self.separator.as_str());
        let mut nl: Vec<char> = Vec::new();
        nl.push('\n');
        proof {
            assert(nl@ =~= seq!['\n']);
        }
        let mut out: Vec<char> = Vec::new();
        let mut i: usize = 0;
        proof {
            assert(join_on(rows.take(0), seq!['\n']) =~= Seq::<char>::empty());
            assert(out@ =~= join_on(rows.take(0), seq!['\n']));
        }
        while i < self.data.len()
            invariant
                i <= self.data.len(),
                cv == self.cells(),
                g == (|row: Seq<Seq<char>>| join_on(row, self.separator@)),
                rows == cv.map_values(g),
                sepv@ == self.separator@,
                nl@ == seq!['\n'],
                out@ == join_on(rows.take(i as int), seq!['\n']),
            decreases self.data.len() - i,
        {
            if i > 0 {
                extend_chars(&mut out, &nl);
            }
            let row_text = render_row(&self.data[i], &sepv);
            proof {
                assert(self.data[i as int].deep_view() == cv[i as int]);
                assert(row_text@ == rows[i as int]);
            }
            extend_chars(&mut out, &row_text);
            proof {
                assert(rows.take(i + 1) =~= rows.take(i as int).push(rows[i as int]));
                crate::text::lemma_join_push(rows.take(i as int), seq!['\n'], rows[i as int]);
                if i > 0 {
                    assert(out@ =~= join_on(rows.take(i as int), seq!['\n']) + seq!['\n']
                        + rows[i as int]);
                } else {
                    assert(rows.take(0int).len() == 0);
                    assert(out@ =~= rows[0int]);
                }
            }
            i = i + 1;
        }
        proof {
            assert(rows.take(rows.len() as int) =~= rows);
        }
        string_of(&out)
    }
}

/// One row of cells joined by the separator.
fn render_row(row: &Vec<String>, sepv: &Vec<char>) -> (r: Vec<char>)
    ensures
        r@ == join_on(row.deep_view(), sepv@),
{
    let ghost rv = row.deep_view();
    let mut out: Vec<char> = Vec::new();
    let mut j: usize = 0;
    proof {
        assert(join_on(rv.take(0), sepv@) =~= Seq::<char>::empty());
        assert(out@ =~= join_on(rv.take(0), sepv@));
    }
    while j < row.len()
        invariant
            j <= row.len(),
            rv == row.deep_view(),
            out@ == join_on(rv.take(j as int), sepv@),
        decreases row.len() - j,
    {
        if j > 0 {
            extend_chars(&mut out, sepv);
        }
        let cell = chars_of(row[j].as_str());
        proof {
            assert(row[j as int]@ == rv[j as int]);
        }
        extend_chars(&mut out, &cell);
        proof {
            assert(rv.take(j + 1) =~= rv.take(j as int).push(rv[j as int]));
            crate::text::lemma_join_push(rv.take(j as int), sepv@, rv[j as int]);
            if j > 0 {
                assert(out@ =~= join_on(rv.take(j as int), sepv@) + sepv@ + rv[j as int]);
            } else {
                assert(rv.take(0int).len() == 0);
                assert(out@ =~= rv[0int]);
            }
        }
        j = j + 1;
    }
    proof {
        assert(rv.take(rv.len() as int) =~= rv);
    }
    out
}

/// Grid round trip: rendering the grid built from a text blob gives
/// that blob back, up to the normalization and trimming done at
/// construction — byte for byte for input already in that form.
pub proof fn lemma_construct_render_roundtrip(s: Seq<char>, sep: Seq<char>)
    requires
        sep.len() >= 1,
    ensures
        spec_render_sheet(spec_construct(s, sep), sep) == trim(normalize(s)),
{
    let t = trim(normalize(s));
    let nl = seq!['\n'];
    let lines = split_on(t, nl);
    let f = |line: Seq<char>| split_on(line, sep);
    let g = |row: Seq<Seq<char>>| join_on(row, sep);
    let joined = lines.map_values(f).map_values(g);
    assert forall|i: int| 0 <= i < joined.len() implies joined[i] == lines[i] by {
        lemma_join_split(lines[i], sep);
    }
    assert(joined =~~= lines);
    lemma_join_split(t, nl);
}

impl PartialEq for Sheet {
    /// Two sheets are equal when they hold the same cell text and
    /// the same separator.
    fn eq(&self, other: &Sheet) -> (r: bool) {
        if !(self.separator == other.separator) {
            return false;
        }
        if self.data.len() != other.data.len() {
            proof {
                assert(self.cells().len() != other.cells().len());
            }
            return false;
        }
        let mut i: usize = 0;
        while i < self.data.len()
            invariant
                i <= self.data.len(),
                self.data.len() == other.data.len(),
                forall|q: int| 0 <= q < i ==> #[trigger] self.cells()[q] =~~= other.cells()[q],
            decreases self.data.len() - i,
        {
            let a = &self.data[i];
            let b = &other.data[i];
            proof {
                assert(a.deep_view() == self.cells()[i as int]);
                assert(b.deep_view() == other.cells()[i as int]);
            }
            if a.len() != b.len() {
                proof {
                    assert(self.cells()[i as int].len() != other.cells()[i as int].len());
                    assert(self.cells() != other.cells());
                }
                return false;
            }
            let mut j: usize = 0;
            while j < a.len()
                invariant
                    j <= a.len(),
                    a.len() == b.len(),
                    a.deep_view() == self.cells()[i as int],
                    b.deep_view() == other.cells()[i as int],
                    0 <= i < self.cells().len(),
                    0 <= i < other.cells().len(),
                    forall|q: int| 0 <= q < j ==> #[trigger] a.deep_view()[q] == b.deep_view()[q],
                decreases a.len() - j,
            {
                if !(a[j] == b[j]) {
                    proof {
                        assert(a.deep_view()[j as int] != b.deep_view()[j as int]);
                        assert(self.cells() != other.cells());
                    }
                    return false;
                }
                proof {
                    assert(a[j as int]@ == a.deep_view()[j as int]);
                    assert(b[j as int]@ == b.deep_view()[j as int]);
                }
                j = j + 1;
            }
            proof {
                assert(self.cells()[i as int] =~~= other.cells()[i as int]);
            }
            i = i + 1;
        }
        proof {
            assert(self.cells() =~~= other.cells());
        }
        true
    }
}

impl vstd::std_specs::cmp::PartialEqSpecImpl for Sheet {
    open spec fn obeys_eq_spec() -> bool {
        true
    }

    open spec fn eq_spec(&self, other: &Sheet) -> bool {
        self.cells() == other.cells() && self.separator@ == other.separator@
    }
}

} // verus!
