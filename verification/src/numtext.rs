//! Reading and writing rational numbers as text.
//!
//! A numeric literal is an optional minus sign, a non-empty run of
//! digits, and optionally a decimal point followed by another
//! non-empty run of digits.  A value renders as its exact decimal
//! expansion when the expansion is finite and fits the machinery, as
//! a plain integer when the denominator is one, and as `num/den`
//! otherwise; no rounding ever happens.

use vstd::prelude::*;
use vstd::math::abs;

use crate::digits::{digit_char, digit_of, digits_run, dec_rep, dec_val, is_digit,
    lemma_dec_val_concat, lemma_dec_val_nonneg, lemma_digits_run_is, lemma_pow10_mul,
    lemma_pow10_pos, pow10, push_dec};
use crate::rational::{norm_rat, opt_view, Num, Rat};
use crate::text::string_of;

verus! {

/// The value of a literal after the optional sign has been removed.
pub open spec fn spec_literal_body(body: Seq<char>, neg: bool) -> Option<Rat> {
    let k = digits_run(body);
    if k < 1 {
        None
    } else if k == body.len() {
        let n0 = dec_val(body);
        if n0 <= i128::MAX as int {
            Some(norm_rat(if neg { -n0 } else { n0 }, 1))
        } else {
            None
        }
    } else if body[k] == '.' && k + 1 < body.len() && digits_run(body.skip(k + 1)) == body.len() - k
        - 1 {
        let n0 = dec_val(body.take(k) + body.skip(k + 1));
        let d0 = pow10((body.len() - k - 1) as nat);
        if n0 <= i128::MAX as int && d0 <= i128::MAX as int {
            Some(norm_rat(if neg { -n0 } else { n0 }, d0))
        } else {
            None
        }
    } else {
        None
    }
}

/// What `parse_literal_chars` accepts and returns: the exact rational
/// value of a well-shaped literal whose scaled mantissa and scale
/// both fit the signed 128-bit word; `None` otherwise.
pub open spec fn spec_parse_literal(s: Seq<char>) -> Option<Rat> {
    let neg = s.len() > 0 && s[0] == '-';
    let body = if neg {
        s.skip(1)
    } else {
        s
    };
    spec_literal_body(body, neg)
}

/// Reads a run of digits into an accumulator that already holds
/// `init`: the result is `init` shifted past the run plus the run's
/// value.  `None` reports that the signed 128-bit bound was passed.
fn fold_digits(v: &Vec<char>, from: usize, to: usize, init: u128) -> (r: Option<u128>)
    requires
        from <= to <= v.len(),
        forall|j: int| from <= j < to ==> is_digit(#[trigger] v@[j]),
        init <= i128::MAX as u128,
    ensures
        ({
            let total = init * pow10((to - from) as nat) + dec_val(
                v@.subrange(from as int, to as int),
            );
            match r {
                Some(x) => x as int == total && x <= i128::MAX as u128,
                None => total > i128::MAX as int,
            }
        }),
{
    let mut acc = init;
    let mut j = from;
    while j < to
        invariant
            from <= j <= to <= v.len(),
            forall|j2: int| from <= j2 < to ==> is_digit(#[trigger] v@[j2]),
            acc <= i128::MAX as u128,
            acc as int == init * pow10((j - from) as nat) + dec_val(
                v@.subrange(from as int, j as int),
            ),
        decreases to - j,
    {
        let c = v[j];
        let d = (c as u32 - 48) as u128;
        let step = match acc.checked_mul(10) {
            Some(x) => x.checked_add(d),
            None => None,
        };
        let over = match step {
            Some(x) => x > i128::MAX as u128,
            None => true,
        };
        proof {
            let pre = v@.subrange(from as int, j as int);
            let cur = v@.subrange(from as int, j + 1);
            assert(cur.drop_last() =~= pre);
            assert(cur.last() == v@[j as int]);
            assert((init * pow10((j - from) as nat)) * 10 == init * (10 * pow10(
                (j - from) as nat,
            ))) by (nonlinear_arith);
        }
        if over {
            proof {
                lemma_fold_digits_tail(init as int, v@, from as int, j + 1, to as int);
            }
            return None;
        }
        acc = match step {
            Some(x) => x,
            None => 0,
        };
        j = j + 1;
    }
    Some(acc)
}

/// Once the scaled prefix of a digit run passes the bound, the whole
/// run does.
proof fn lemma_fold_digits_tail(init: int, s: Seq<char>, from: int, mid: int, to: int)
    requires
        0 <= from <= mid <= to <= s.len(),
        init >= 0,
        forall|j: int| from <= j < to ==> is_digit(#[trigger] s[j]),
    ensures
        init * pow10((to - from) as nat) + dec_val(s.subrange(from, to)) >= init * pow10(
            (mid - from) as nat,
        ) + dec_val(s.subrange(from, mid)),
{
    let a = s.subrange(from, mid);
    let b = s.subrange(mid, to);
    let w = s.subrange(from, to);
    assert(w =~= a + b);
    lemma_dec_val_concat(a, b);
    lemma_pow10_mul((mid - from) as nat, (to - mid) as nat);
    lemma_pow10_pos((to - mid) as nat);
    lemma_pow10_pos((mid - from) as nat);
    assert(forall|i: int| 0 <= i < a.len() ==> is_digit(#[trigger] a[i]));
    assert(forall|i: int| 0 <= i < b.len() ==> is_digit(#[trigger] b[i]));
    lemma_dec_val_nonneg(a);
    lemma_dec_val_nonneg(b);
    let p1 = pow10((mid - from) as nat);
    let p2 = pow10((to - mid) as nat);
    assert(init * (p1 * p2) + (dec_val(a) * p2 + dec_val(b)) >= init * p1 + dec_val(a))
        by (nonlinear_arith)
        requires
            p1 >= 1,
            p2 >= 1,
            init >= 0,
            dec_val(a) >= 0,
            dec_val(b) >= 0,
    ;
}

/// A run that spans the whole sequence means every character is a
/// digit.
proof fn lemma_run_all_digits(s: Seq<char>)
    requires
        digits_run(s) == s.len(),
    ensures
        forall|i: int| 0 <= i < s.len() ==> is_digit(#[trigger] s[i]),
    decreases s.len(),
{
    if s.len() > 0 {
        let t = s.skip(1);
        assert(digits_run(s) == 1 + digits_run(t));
        lemma_run_all_digits(t);
        assert forall|i: int| 0 <= i < s.len() implies is_digit(s[i]) by {
            if i >= 1 {
                assert(s[i] == t[i - 1]);
            }
        }
    }
}

/// An integer part already past the bound means the whole literal is
/// past it, whatever follows.
proof fn lemma_int_part_overflow(body: Seq<char>, neg: bool)
    requires
        digits_run(body) >= 1,
        dec_val(body.take(digits_run(body))) > i128::MAX as int,
    ensures
        spec_literal_body(body, neg) is None,
{
    let k = digits_run(body);
    if k == body.len() {
        assert(body.take(k) =~= body);
    } else if body[k] == '.' && k + 1 < body.len() && digits_run(body.skip(k + 1)) == body.len() - k
        - 1 {
        let a = body.take(k);
        let b = body.skip(k + 1);
        lemma_run_all_digits(b);
        lemma_dec_val_concat(a, b);
        lemma_dec_val_nonneg(b);
        lemma_pow10_pos(b.len());
        assert(dec_val(a) * pow10(b.len()) >= dec_val(a)) by (nonlinear_arith)
            requires
                pow10(b.len()) >= 1,
                dec_val(a) > 0,
        ;
    }
}

proof fn lemma_pow10_grows(a: nat, b: nat)
    requires
        a <= b,
    ensures
        pow10(a) <= pow10(b),
    decreases b,
{
    if a < b {
        lemma_pow10_grows(a, (b - 1) as nat);
        lemma_pow10_pos((b - 1) as nat);
    }
}

/// Parses a numeric literal; `None` for any other shape or where the
/// value does not fit the fixed width.
pub fn parse_literal_chars(v: &Vec<char>) -> (r: Option<Num>)
    ensures
        opt_view(r) == spec_parse_literal(v@),
{
    let ghost s = v@;
    let n = v.len();
    let neg = n > 0 && v[0] == '-';
    let start: usize = if neg {
        1
    } else {
        0
    };
    let ghost body = if neg {
        s.skip(1)
    } else {
        s
    };
    proof {
        assert(forall|i: int| 0 <= i < body.len() ==> #[trigger] body[i] == s[i + start]);
    }
    // The integer digit run.
    let mut i = start;
    let mut stop = false;
    while i < n && !stop
        invariant
            start <= i <= n,
            n == v.len(),
            s == v@,
            forall|j: int| start <= j < i ==> is_digit(#[trigger] s[j]),
            stop ==> i < n && !is_digit(s[i as int]),
        decreases n - i + (if stop { 0int } else { 1 }),
    {
        let c = v[i];
        let u = c as u32;
        if 48 <= u && u <= 57 {
            i = i + 1;
        } else {
            stop = true;
        }
    }
    let ghost k = i - start;
    proof {
        assert(forall|j: int| 0 <= j < k ==> is_digit(#[trigger] body[j]));
        lemma_digits_run_is(body, k);
        assert(v@.subrange(start as int, i as int) =~= body.take(k));
    }
    if i == start {
        return None;
    }
    let int_part = match fold_digits(v, start, i, 0) {
        Some(x) => x,
        None => {
            proof {
                lemma_zero_scale(pow10(k as nat), dec_val(body.take(k)));
                lemma_int_part_overflow(body, neg);
            }
            return None;
        },
    };
    proof {
        lemma_zero_scale(pow10(k as nat), dec_val(body.take(k)));
        assert(int_part as int == dec_val(body.take(k)));
    }
    if i == n {
        // A plain integer.
        proof {
            assert(body.take(k) =~= body);
        }
        let m = int_part as i128;
        let r = if neg {
            Num::ratio(-m, 1)
        } else {
            Num::ratio(m, 1)
        };
        return r;
    }
    // A fractional literal: a point and a second digit run.
    if v[i] != '.' {
        proof {
            assert(body[k] == s[i as int]);
        }
        return None;
    }
    if i + 1 == n {
        return None;
    }
    let fp_from = i + 1;
    let ghost tail = body.skip(k + 1);
    proof {
        assert(forall|q: int| 0 <= q < tail.len() ==> #[trigger] tail[q] == s[q + fp_from]);
    }
    let mut j = fp_from;
    let mut bad = false;
    while j < n && !bad
        invariant
            fp_from <= j <= n,
            n == v.len(),
            s == v@,
            forall|j2: int| fp_from <= j2 < j ==> is_digit(#[trigger] s[j2]),
            bad ==> j < n && !is_digit(s[j as int]),
        decreases n - j + (if bad { 0int } else { 1 }),
    {
        let c = v[j];
        let u = c as u32;
        if 48 <= u && u <= 57 {
            j = j + 1;
        } else {
            bad = true;
        }
    }
    if bad {
        proof {
            assert(!is_digit(tail[j - fp_from]));
            if digits_run(tail) == tail.len() {
                lemma_run_all_digits(tail);
            }
        }
        return None;
    }
    proof {
        assert(forall|q: int| 0 <= q < tail.len() ==> is_digit(#[trigger] tail[q]));
        lemma_digits_run_is(tail, tail.len() as int);
        assert(v@.subrange(fp_from as int, n as int) =~= tail);
    }
    let mant = match fold_digits(v, fp_from, n, int_part) {
        Some(x) => x,
        None => {
            proof {
                lemma_dec_val_concat(body.take(k), tail);
            }
            return None;
        },
    };
    proof {
        lemma_dec_val_concat(body.take(k), tail);
        assert(mant as int == dec_val(body.take(k) + tail));
    }
    // The scale: ten to the length of the fractional run.
    let mut den: u128 = 1;
    let mut cnt = fp_from;
    let mut wide = false;
    while cnt < n && !wide
        invariant
            fp_from <= cnt <= n,
            den as int == pow10((cnt - fp_from) as nat),
            den <= i128::MAX as u128,
            wide ==> cnt < n && pow10((cnt + 1 - fp_from) as nat) > i128::MAX as int,
        decreases n - cnt + (if wide { 0int } else { 1 }),
    {
        let next = match den.checked_mul(10) {
            Some(x) => {
                if x > i128::MAX as u128 {
                    None
                } else {
                    Some(x)
                }
            },
            None => None,
        };
        match next {
            Some(x) => {
                den = x;
                cnt = cnt + 1;
            },
            None => {
                wide = true;
            },
        }
    }
    if wide {
        proof {
            lemma_pow10_grows((cnt + 1 - fp_from) as nat, (n - fp_from) as nat);
        }
        return None;
    }
    let m = mant as i128;
    let d = den as i128;
    proof {
        lemma_pow10_pos((n - fp_from) as nat);
    }
    let r = if neg {
        Num::ratio(-m, d)
    } else {
        Num::ratio(m, d)
    };
    r
}

proof fn lemma_zero_scale(p: int, x: int)
    ensures
        0 * p + x == x,
{
    assert(0 * p == 0) by (nonlinear_arith);
}

/// `d` is a product of twos and fives alone (so a fraction with
/// denominator `d` has a finite decimal expansion).
pub open spec fn only_two_five(d: int) -> bool
    decreases d,
{
    if d <= 1 {
        d == 1
    } else if d % 2 == 0 {
        only_two_five(d / 2)
    } else if d % 5 == 0 {
        only_two_five(d / 5)
    } else {
        false
    }
}

fn only_two_five_exec(d: u128) -> (b: bool)
    ensures
        b == only_two_five(d as int),
    decreases d,
{
    if d <= 1 {
        d == 1
    } else if d % 2 == 0 {
        only_two_five_exec(d / 2)
    } else if d % 5 == 0 {
        only_two_five_exec(d / 5)
    } else {
        false
    }
}

/// The decimal digits of `rem / den` after the point, produced by
/// long division, up to `fuel` of them.
pub open spec fn frac_digits(rem: int, den: int, fuel: nat) -> Seq<char>
    decreases fuel,
{
    if rem == 0 || fuel == 0 {
        Seq::empty()
    } else {
        seq![digit_of((rem * 10) / den)] + frac_digits((rem * 10) % den, den, (fuel - 1) as nat)
    }
}

/// What `render` returns: minus sign if negative, then the plain
/// integer for a denominator of one, the exact finite decimal
/// expansion where the denominator is a product of twos and fives
/// small enough for the long division to run in the unsigned 128-bit
/// word, and the fraction written `num/den` otherwise.
pub open spec fn spec_render(r: Rat) -> Seq<char> {
    let sign: Seq<char> = if r.num < 0 {
        seq!['-']
    } else {
        Seq::empty()
    };
    let m = abs(r.num) as int;
    if r.den == 1 {
        sign + dec_rep(m as nat)
    } else if only_two_five(r.den) && r.den <= u128::MAX as int / 10 {
        sign + dec_rep((m / r.den) as nat) + seq!['.'] + frac_digits(m % r.den, r.den, 127)
    } else {
        sign + dec_rep(m as nat) + seq!['/'] + dec_rep(r.den as nat)
    }
}

/// Renders a value as text; the inverse-free, exact form described
/// by `spec_render`.
pub fn render_num(x: &Num) -> (r: String)
    ensures
        r@ == spec_render(x@),
{
    proof {
        use_type_invariant(x);
    }
    let nu: i128 = x.numerator();
    let de: i128 = x.denominator();
    let mut out: Vec<char> = Vec::new();
    if nu < 0 {
        out.push('-');
    }
    let ghost sign: Seq<char> = if x@.num < 0 {
        seq!['-']
    } else {
        Seq::empty()
    };
    assert(out@ =~= sign);
    let mag: u128 = if nu < 0 {
        (-nu) as u128
    } else {
        nu as u128
    };
    assert(mag as int == abs(x@.num) as int);
    let deu: u128 = de as u128;
    if de == 1 {
        push_dec(mag, &mut out);
    } else if only_two_five_exec(deu) && deu <= u128::MAX / 10 {
        let q = mag / deu;
        let mut rem = mag % deu;
        push_dec(q, &mut out);
        out.push('.');
        let ghost rem0 = rem as int;
        let ghost head = out@;
        let mut fuel: u32 = 127;
        proof {
            vstd::arithmetic::div_mod::lemma_fundamental_div_mod(u128::MAX as int, 10);
        }
        while rem != 0 && fuel > 0
            invariant
                deu as int == x@.den,
                2 <= deu <= u128::MAX / 10,
                (rem as int) < deu as int,
                fuel <= 127,
                head + frac_digits(rem0, deu as int, 127) =~= out@ + frac_digits(
                    rem as int,
                    deu as int,
                    fuel as nat,
                ),
            decreases fuel,
        {
            proof {
                assert(rem * 10 < deu * 10) by (nonlinear_arith)
                    requires
                        (rem as int) < deu as int,
                ;
                assert(deu * 10 <= u128::MAX) by (nonlinear_arith)
                    requires
                        deu as int <= u128::MAX as int / 10,
                        u128::MAX as int == 10 * (u128::MAX as int / 10) + u128::MAX as int % 10,
                ;
            }
            let rem10 = rem * 10;
            let dig = rem10 / deu;
            proof {
                vstd::arithmetic::div_mod::lemma_multiply_divide_lt(rem10 as int, deu as int, 10);
            }
            out.push(digit_char(dig as u32));
            proof {
                let pre = frac_digits(rem as int, deu as int, fuel as nat);
                let post = frac_digits((rem10 as int) % (deu as int), deu as int, (fuel - 1) as nat);
                assert(pre =~= seq![digit_of(rem10 as int / deu as int)] + post);
            }
            rem = rem10 % deu;
            fuel = fuel - 1;
        }
        assert(frac_digits(rem as int, deu as int, fuel as nat) =~= Seq::<char>::empty());
        assert(out@ =~= head + frac_digits(rem0, deu as int, 127));
    } else {
        push_dec(mag, &mut out);
        out.push('/');
        push_dec(deu, &mut out);
    }
    assert(out@ =~= spec_render(x@));
    string_of(&out)
}

} // verus!
