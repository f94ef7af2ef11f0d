//! The recursive postfix evaluator and the sheet driver.
//!
//! A cell's text splits on whitespace into tokens: the four operators
//! `+ - * /`, coordinate references, numeric literals, and anything
//! else, which is silently skipped.  Tokens run left to right over a
//! stack of exact rationals; an operator pops its right operand
//! first.  A reference evaluates that cell recursively; the set of
//! coordinates on the active call path detects cycles, and a depth
//! ceiling of `DEPTH_LIMIT` bounds non-cyclic chains.  An expression
//! succeeds exactly when one value remains on the stack at the end,
//! at every recursion level.
//!
//! The sheet driver reads only the original cell text (a snapshot
//! policy): results are written to a fresh grid, so the outcome does
//! not depend on evaluation order.

use vstd::prelude::*;

use crate::coord::{spec_parse, Coord};
use crate::numtext::{parse_literal_chars, render_num, spec_parse_literal, spec_render};
use crate::rational::{spec_add, spec_div, spec_mul, spec_sub, Num, Rat};
use crate::sheet::{spec_get, Sheet};
use crate::text::{chars_of, is_space};

verus! {

/// The ways one cell's evaluation can fail.  Every kind renders as
/// `#ERR`; they stay distinct for callers and tests.
#[derive(Debug, PartialEq, Eq, Structural, Clone, Copy)]
pub enum PostfixError {
    /// The cell lies on a reference cycle, or the depth ceiling was
    /// reached.
    RecursionDepthExceeded,
    /// An operator found fewer than two stack values, or the final
    /// stack was empty.
    NotEnoughOperands,
    /// More than one value remained at the end.
    TooManyOperands,
    /// A referenced coordinate lies outside the grid.
    CellNotFound,
    /// The right operand of `/` is exactly zero.
    DivisionByZero,
    /// An exact intermediate value left the fixed-width
    /// representation.
    NumberOverflow,
}

impl PostfixError {
    /// The fixed display token shared by every error kind.
    pub fn render(&self) -> (r: String)
        ensures
            r@ == seq!['#', 'E', 'R', 'R'],
    {
        let s: &str = "#ERR";
        proof {
            reveal_strlit("#ERR");
        }
        let r = s.to_owned();
        assert(r@ =~= seq!['#', 'E', 'R', 'R']);
        r
    }
}

/// The recursion ceiling: one more active reference than this fails
/// with `RecursionDepthExceeded`.
pub const DEPTH_LIMIT: usize = 255;

/// The recursion budget that remains under a given call path.
pub open spec fn fuel_of(path: Seq<Coord>) -> nat {
    if path.len() >= DEPTH_LIMIT {
        0
    } else {
        (DEPTH_LIMIT - path.len()) as nat
    }
}

/// One step of whitespace tokenization: a space closes the pending
/// token, any other character extends it.
pub open spec fn tok_step(st: (Seq<Seq<char>>, Seq<char>), c: char) -> (Seq<Seq<char>>, Seq<char>) {
    if is_space(c) {
        if st.1.len() > 0 {
            (st.0.push(st.1), Seq::empty())
        } else {
            st
        }
    } else {
        (st.0, st.1.push(c))
    }
}

/// The whitespace-separated tokens of a cell, in order; tokens are
/// never empty.
pub open spec fn spec_tokens(s: Seq<char>) -> Seq<Seq<char>> {
    let st = s.fold_left(
        (Seq::<Seq<char>>::empty(), Seq::<char>::empty()),
        |st: (Seq<Seq<char>>, Seq<char>), c: char| tok_step(st, c),
    );
    if st.1.len() > 0 {
        st.0.push(st.1)
    } else {
        st.0
    }
}

/// `t` is one of the four operator tokens.
pub open spec fn is_op(t: Seq<char>) -> bool {
    t.len() == 1 && (t[0] == '+' || t[0] == '-' || t[0] == '*' || t[0] == '/')
}

/// Applies an operator to the popped right operand `a` and the value
/// `b` beneath it.
pub open spec fn apply_op(c: char, b: Rat, a: Rat) -> Result<Rat, PostfixError> {
    if c == '+' {
        match spec_add(b, a) {
            Some(v) => Ok(v),
            None => Err(PostfixError::NumberOverflow),
        }
    } else if c == '-' {
        match spec_sub(b, a) {
            Some(v) => Ok(v),
            None => Err(PostfixError::NumberOverflow),
        }
    } else if c == '*' {
        match spec_mul(b, a) {
            Some(v) => Ok(v),
            None => Err(PostfixError::NumberOverflow),
        }
    } else {
        if a.num == 0 {
            Err(PostfixError::DivisionByZero)
        } else {
            match spec_div(b, a) {
                Some(v) => Ok(v),
                None => Err(PostfixError::NumberOverflow),
            }
        }
    }
}

/// The stack after the tokens of `toks` have run, under the given
/// call path and recursion budget; or the first error.
pub open spec fn spec_eval(
    cells: Seq<Seq<Seq<char>>>,
    toks: Seq<Seq<char>>,
    path: Seq<Coord>,
    fuel: nat,
) -> Result<Seq<Rat>, PostfixError>
    decreases fuel, toks.len(), 1int,
{
    if toks.len() == 0 {
        Ok(Seq::empty())
    } else {
        match spec_eval(cells, toks.drop_last(), path, fuel) {
            Err(e) => Err(e),
            Ok(stack) => {
                let t = toks.last();
                if is_op(t) {
                    if stack.len() < 2 {
                        Err(PostfixError::NotEnoughOperands)
                    } else {
                        match apply_op(t[0], stack[stack.len() - 2], stack.last()) {
                            Ok(v) => Ok(stack.drop_last().drop_last().push(v)),
                            Err(e) => Err(e),
                        }
                    }
                } else if spec_parse(t) is Some {
                    let y = spec_parse(t)->0;
                    match spec_get(cells, y) {
                        None => Err(PostfixError::CellNotFound),
                        Some(text) => match spec_calc(cells, y, text, path, fuel) {
                            Ok(v) => Ok(stack.push(v)),
                            Err(e) => Err(e),
                        },
                    }
                } else {
                    match spec_parse_literal(t) {
                        Some(v) => Ok(stack.push(v)),
                        None => Ok(stack),
                    }
                }
            },
        }
    }
}

/// The value of one cell's text evaluated at coordinate `this` under
/// a call path: a cycle or an exhausted budget fails, and success
/// demands exactly one value left on the stack.
pub open spec fn spec_calc(
    cells: Seq<Seq<Seq<char>>>,
    this: Coord,
    cell: Seq<char>,
    path: Seq<Coord>,
    fuel: nat,
) -> Result<Rat, PostfixError>
    decreases fuel, 0int, 0int,
{
    if path.contains(this) {
        Err(PostfixError::RecursionDepthExceeded)
    } else if fuel == 0 {
        Err(PostfixError::RecursionDepthExceeded)
    } else {
        match spec_eval(cells, spec_tokens(cell), path.push(this), (fuel - 1) as nat) {
            Err(e) => Err(e),
            Ok(stack) => {
                if stack.len() == 1 {
                    Ok(stack[0])
                } else if stack.len() > 1 {
                    Err(PostfixError::TooManyOperands)
                } else {
                    Err(PostfixError::NotEnoughOperands)
                }
            },
        }
    }
}

/// A `Result` of evaluation seen over mathematical values.
pub open spec fn res_view(r: Result<Num, PostfixError>) -> Result<Rat, PostfixError> {
    match r {
        Ok(n) => Ok(n@),
        Err(e) => Err(e),
    }
}

/// An error among the first `j` tokens is the result of the whole
/// token list.
proof fn lemma_eval_err_propagates(
    cells: Seq<Seq<Seq<char>>>,
    toks: Seq<Seq<char>>,
    path: Seq<Coord>,
    fuel: nat,
    j: int,
)
    requires
        0 <= j <= toks.len(),
        spec_eval(cells, toks.take(j), path, fuel) is Err,
    ensures
        spec_eval(cells, toks, path, fuel) == spec_eval(cells, toks.take(j), path, fuel),
    decreases toks.len() - j,
{
    if j == toks.len() {
        assert(toks.take(j) =~= toks);
    } else {
        assert(toks.take(j + 1).drop_last() =~= toks.take(j));
        assert(spec_eval(cells, toks.take(j + 1), path, fuel) == spec_eval(
            cells,
            toks.take(j),
            path,
            fuel,
        ));
        lemma_eval_err_propagates(cells, toks, path, fuel, j + 1);
    }
}

/// Whitespace tokenization, as executable code.
fn tokenize(v: &Vec<char>) -> (r: Vec<Vec<char>>)
    ensures
        r.deep_view() == spec_tokens(v@),
{
    let ghost s = v@;
    let ghost f = |st: (Seq<Seq<char>>, Seq<char>), c: char| tok_step(st, c);
    let n = v.len();
    let mut toks: Vec<Vec<char>> = Vec::new();
    let mut cur: Vec<char> = Vec::new();
    let mut i: usize = 0;
    proof {
        assert(s.take(0) =~= Seq::<char>::empty());
        assert(toks.deep_view() =~~= Seq::<Seq<char>>::empty());
    }
    while i < n
        invariant
            i <= n,
            n == v.len(),
            s == v@,
            f == (|st: (Seq<Seq<char>>, Seq<char>), c: char| tok_step(st, c)),
            (toks.deep_view(), cur@) == s.take(i as int).fold_left(
                (Seq::<Seq<char>>::empty(), Seq::<char>::empty()),
                f,
            ),
        decreases n - i,
    {
        let ghost st = s.take(i as int).fold_left(
            (Seq::<Seq<char>>::empty(), Seq::<char>::empty()),
            f,
        );
        proof {
            assert(s.take(i + 1).drop_last() =~= s.take(i as int));
            assert(s.take(i + 1).last() == s[i as int]);
            assert(s.take(i + 1).fold_left(
                (Seq::<Seq<char>>::empty(), Seq::<char>::empty()),
                f,
            ) == f(st, s[i as int]));
        }
        let c = v[i];
        if c == ' ' || c == '\t' || c == '\n' || c == '\r' || c == '\u{000C}' {
            if cur.len() > 0 {
                let ghost td = toks.deep_view();
                toks.push(cur);
                cur = Vec::new();
                proof {
                    assert(toks.deep_view() =~~= td.push(st.1));
                }
            }
        } else {
            cur.push(c);
        }
        i = i + 1;
    }
    proof {
        assert(s.take(n as int) =~= s);
    }
    if cur.len() > 0 {
        let ghost td = toks.deep_view();
        let ghost cv = cur@;
        toks.push(cur);
        proof {
            assert(toks.deep_view() =~~= td.push(cv));
        }
    }
    toks
}

/// Whether a coordinate already lies on the call path.
fn contains_coord(v: &Vec<Coord>, c: &Coord) -> (b: bool)
    ensures
        b == v@.contains(*c),
{
    let mut i: usize = 0;
    while i < v.len()
        invariant
            i <= v.len(),
            forall|q: int| 0 <= q < i ==> v@[q] != *c,
        decreases v.len() - i,
    {
        if v[i] == *c {
            return true;
        }
        i = i + 1;
    }
    false
}

/// The evaluator: borrows the sheet it reads.
#[derive(Debug, PartialEq)]
pub struct Postfix<'a> {
    pub sheet: &'a Sheet,
}

impl<'a> Postfix<'a> {
    /// An evaluator over the given sheet.
    pub fn new(sheet: &'a Sheet) -> (r: Self)
        ensures
            r.sheet == sheet,
    {
        Postfix { sheet }
    }

    /// Evaluates one cell's text as a postfix expression at
    /// coordinate `this`, under the active call path in
    /// `call_stack`, which is handed back unchanged.
    pub fn calc_cell(&self, this: &Coord, cell: &str, call_stack: &mut Vec<Coord>) -> (r: Result<
        Num,
        PostfixError,
    >)
        ensures
            final(call_stack)@ == old(call_stack)@,
            res_view(r) == spec_calc(
                self.sheet.cells(),
                *this,
                cell@,
                old(call_stack)@,
                fuel_of(old(call_stack)@),
            ),
        decreases DEPTH_LIMIT - call_stack@.len(),
    {
        let ghost cells = self.sheet.cells();
        let ghost path = call_stack@;
        let ghost fuel = fuel_of(path);
        if contains_coord(call_stack, this) {
            return Err(PostfixError::RecursionDepthExceeded);
        }
        if call_stack.len() >= DEPTH_LIMIT {
            return Err(PostfixError::RecursionDepthExceeded);
        }
        let ghost path2 = path.push(*this);
        let ghost fuel2 = (fuel - 1) as nat;
        proof {
            assert(fuel_of(path2) == fuel2);
        }
        let cv = chars_of(cell);
        let toks = tokenize(&cv);
        let ghost tv = toks.deep_view();
        let mut stack: Vec<Num> = Vec::new();
        let mut i: usize = 0;
        proof {
            assert(tv.take(0) =~= Seq::<Seq<char>>::empty());
            assert(stack@.map_values(|n: Num| n@) =~= Seq::<Rat>::empty());
        }
        while i < toks.len()
            invariant
                i <= toks.len(),
                tv == toks.deep_view(),
                tv == spec_tokens(cell@),
                cells == self.sheet.cells(),
                path == old(call_stack)@,
                call_stack@ == path,
                path2 == path.push(*this),
                !path.contains(*this),
                path.len() < DEPTH_LIMIT,
                fuel == fuel_of(path),
                fuel2 == (fuel - 1) as nat,
                spec_eval(cells, tv.take(i as int), path2, fuel2) == Ok::<_, PostfixError>(
                    stack@.map_values(|n: Num| n@),
                ),
            decreases toks.len() - i,
        {
            let ghost sv = stack@.map_values(|n: Num| n@);
            proof {
                assert(tv.take(i + 1).drop_last() =~= tv.take(i as int));
                assert(tv.take(i + 1).last() == tv[i as int]);
                assert(toks[i as int].deep_view() =~= toks[i as int]@);
                assert(tv[i as int] == toks[i as int]@);
            }
            let t = &toks[i];
            let ghost ts = t@;
            let mut is_op_token = false;
            let mut opc = ' ';
            if t.len() == 1 {
                let c0 = t[0];
                if c0 == '+' || c0 == '-' || c0 == '*' || c0 == '/' {
                    is_op_token = true;
                    opc = c0;
                }
            }
            if is_op_token {
                proof {
                    assert(is_op(tv[i as int]));
                }
                if stack.len() < 2 {
                    proof {
                        assert(sv.len() < 2);
                        assert(spec_eval(cells, tv.take(i + 1), path2, fuel2) == Err::<
                            Seq<Rat>,
                            _,
                        >(PostfixError::NotEnoughOperands));
                        lemma_eval_err_propagates(cells, tv, path2, fuel2, i + 1);
                    }
                    return Err(PostfixError::NotEnoughOperands);
                }
                let a = stack.pop().unwrap();
                let b = stack.pop().unwrap();
                proof {
                    assert(a@ == sv.last());
                    assert(b@ == sv[sv.len() - 2]);
                    assert(stack@.map_values(|n: Num| n@) =~= sv.drop_last().drop_last());
                }
                let applied: Result<Option<Num>, PostfixError> = if opc == '+' {
                    Ok(b.add(&a))
                } else if opc == '-' {
                    Ok(b.sub(&a))
                } else if opc == '*' {
                    Ok(b.mul(&a))
                } else {
                    if a.is_zero() {
                        Err(PostfixError::DivisionByZero)
                    } else {
                        Ok(b.div(&a))
                    }
                };
                match applied {
                    Ok(Some(vnum)) => {
                        stack.push(vnum);
                        proof {
                            assert(stack@.map_values(|n: Num| n@) =~= sv.drop_last().drop_last().push(
                                vnum@,
                            ));
                        }
                    },
                    Ok(None) => {
                        proof {
                            lemma_eval_err_propagates(cells, tv, path2, fuel2, i + 1);
                        }
                        return Err(PostfixError::NumberOverflow);
                    },
                    Err(e) => {
                        proof {
                            lemma_eval_err_propagates(cells, tv, path2, fuel2, i + 1);
                        }
                        return Err(e);
                    },
                }
            } else {
                proof {
                    assert(!is_op(tv[i as int]));
                }
                let parsed = Coord::parse_chars(t);
                match parsed {
                    Some(y) => {
                        match self.sheet.get(&y) {
                            None => {
                                proof {
                                    assert(spec_parse(tv[i as int]) == Some(y));
                                    assert(spec_eval(cells, tv.take(i + 1), path2, fuel2) == Err::<
                                        Seq<Rat>,
                                        _,
                                    >(PostfixError::CellNotFound));
                                    lemma_eval_err_propagates(cells, tv, path2, fuel2, i + 1);
                                }
                                return Err(PostfixError::CellNotFound);
                            },
                            Some(text) => {
                                call_stack.push(*this);
                                proof {
                                    assert(call_stack@ == path2);
                                    assert(fuel_of(path2) == fuel2);
                                }
                                let sub = self.calc_cell(&y, text.as_str(), call_stack);
                                call_stack.pop();
                                proof {
                                    assert(call_stack@ =~= path);
                                }
                                match sub {
                                    Ok(vnum) => {
                                        stack.push(vnum);
                                        proof {
                                            assert(stack@.map_values(|n: Num| n@) =~= sv.push(
                                                vnum@,
                                            ));
                                        }
                                    },
                                    Err(e) => {
                                        proof {
                                            lemma_eval_err_propagates(cells, tv, path2, fuel2, i + 1);
                                        }
                                        return Err(e);
                                    },
                                }
                            },
                        }
                    },
                    None => {
                        match parse_literal_chars(t) {
                            Some(vnum) => {
                                stack.push(vnum);
                                proof {
                                    assert(stack@.map_values(|n: Num| n@) =~= sv.push(vnum@));
                                }
                            },
                            None => {},
                        }
                    },
                }
            }
            i = i + 1;
        }
        proof {
            assert(tv.take(toks.len() as int) =~= tv);
        }
        if stack.len() == 1 {
            let v0 = stack[0];
            proof {
                assert(stack@.map_values(|n: Num| n@)[0] == v0@);
            }
            Ok(v0)
        } else if stack.len() > 1 {
            Err(PostfixError::TooManyOperands)
        } else {
            Err(PostfixError::NotEnoughOperands)
        }
    }

    /// Evaluates every cell of the sheet against a snapshot of the
    /// original text and returns the grid of rendered results, every
    /// error as `#ERR`.
    pub fn process_sheet(&self) -> (out: Vec<Vec<String>>)
        ensures
            out.deep_view() == spec_process(self.sheet.cells()),
    {
        let ghost cells = self.sheet.cells();
        let ghost sp = spec_process(cells);
        let mut out: Vec<Vec<String>> = Vec::new();
        let mut r: usize = 0;
        proof {
            assert(out.deep_view() =~~= sp.take(0));
        }
        while r < self.sheet.data.len()
            invariant
                r <= self.sheet.data.len(),
                cells == self.sheet.cells(),
                sp == spec_process(cells),
                cells.len() == self.sheet.data.len(),
                out.deep_view() == sp.take(r as int),
            decreases self.sheet.data.len() - r,
        {
            let width = self.sheet.data[r].len();
            proof {
                assert(self.sheet.data[r as int].deep_view() == cells[r as int]);
            }
            let mut row: Vec<String> = Vec::new();
            let mut c: usize = 0;
            proof {
                assert(row.deep_view() =~~= sp[r as int].take(0));
            }
            while c < width
                invariant
                    c <= width,
                    r < self.sheet.data.len(),
                    cells == self.sheet.cells(),
                    sp == spec_process(cells),
                    cells.len() == self.sheet.data.len(),
                    width == self.sheet.data[r as int].len(),
                    width == cells[r as int].len(),
                    row.deep_view() == sp[r as int].take(c as int),
                decreases width - c,
            {
                let coordinate = Coord { column: c, row: r };
                let mut call_stack: Vec<Coord> = Vec::new();
                proof {
                    assert(self.sheet.data[r as int][c as int]@ == cells[r as int][c as int]);
                    assert(fuel_of(call_stack@) == DEPTH_LIMIT);
                }
                let text = self.sheet.data[r][c].as_str();
                let value = match self.calc_cell(&coordinate, text, &mut call_stack) {
                    Ok(v) => render_num(&v),
                    Err(e) => e.render(),
                };
                let ghost rd = row.deep_view();
                proof {
                    assert(value@ == spec_cell_out(cells, r as int, c as int));
                    assert(sp[r as int][c as int] == spec_cell_out(cells, r as int, c as int));
                }
                row.push(value);
                proof {
                    assert(row.deep_view() =~~= rd.push(sp[r as int][c as int]));
                    assert(sp[r as int].take(c + 1) =~= sp[r as int].take(c as int).push(
                        sp[r as int][c as int],
                    ));
                }
                c = c + 1;
            }
            proof {
                assert(sp[r as int].take(width as int) =~= sp[r as int]);
            }
            let ghost od = out.deep_view();
            out.push(row);
            proof {
                assert(out.deep_view() =~~= od.push(sp[r as int]));
                assert(sp.take(r + 1) =~= sp.take(r as int).push(sp[r as int]));
            }
            r = r + 1;
        }
        proof {
            assert(sp.take(sp.len() as int) =~= sp);
        }
        out
    }
}

/// What one cell renders to after evaluation: its exact value, or
/// `#ERR`.
pub open spec fn spec_cell_out(cells: Seq<Seq<Seq<char>>>, r: int, c: int) -> Seq<char> {
    let coordinate = Coord { column: c as usize, row: r as usize };
    match spec_calc(
        cells,
        coordinate,
        cells[r][c],
        Seq::empty(),
        fuel_of(Seq::empty()),
    ) {
        Ok(v) => spec_render(v),
        Err(_) => seq!['#', 'E', 'R', 'R'],
    }
}

/// The grid of rendered results the driver produces.
pub open spec fn spec_process(cells: Seq<Seq<Seq<char>>>) -> Seq<Seq<Seq<char>>> {
    Seq::new(cells.len(), |r: int| Seq::new(cells[r].len(), |c: int| spec_cell_out(cells, r, c)))
}

} // verus!
