//! Bridging between `String` / `&str` and `Vec<char>`.
//!
//! The parsing and rendering code in this crate works on `Vec<char>`,
//! whose view is the same `Seq<char>` as the view of the string it came
//! from, so every contract can be stated over one model of the text.

use vstd::prelude::*;
use vstd::std_specs::iter::IteratorSpec;

verus! {

broadcast use vstd::string::axiom_spec_iter, vstd::string::next_postcondition;

/// The characters of a string slice, in order.
pub fn chars_of(s: &str) -> (v: Vec<char>)
    ensures
        v@ == s@,
{
    let mut it = s.chars();
    let mut v: Vec<char> = Vec::new();
    let mut done = false;
    while !done
        invariant
            v@ + it.remaining() == s@,
            done ==> it.remaining().len() == 0,
        decreases s@.len() - v@.len() + (if done { 0int } else { 1 }),
    {
        match it.next() {
            Some(c) => {
                v.push(c);
            },
            None => {
                done = true;
            },
        }
    }
    assert(v@ =~= s@);
    v
}

/// Relies on `String::push`: appends exactly the given character.
#[verifier::external_body]
fn push_char(s: &mut String, c: char)
    ensures
        final(s)@ == old(s)@.push(c),
{
    s.push(c);
}

/// A freshly built string holding exactly the given characters.
pub fn string_of(v: &Vec<char>) -> (s: String)
    ensures
        s@ == v@,
{
    let mut s = String::new();
    let mut i: usize = 0;
    while i < v.len()
        invariant
            i <= v.len(),
            s@ == v@.take(i as int),
        decreases v.len() - i,
    {
        push_char(&mut s, v[i]);
        i = i + 1;
        assert(v@.take(i as int) =~= v@.take(i - 1).push(v@[i - 1]));
    }
    assert(v@.take(v.len() as int) =~= v@);
    s
}

/// `c` is one of the ASCII whitespace characters this crate strips.
pub open spec fn is_space(c: char) -> bool {
    c == ' ' || c == '\t' || c == '\n' || c == '\r' || c == '\u{000C}'
}

/// Line-ending normalization: `\r\n` and a lone `\r` both become
/// `\n`.
pub open spec fn normalize(s: Seq<char>) -> Seq<char>
    decreases s.len(),
{
    if s.len() == 0 {
        s
    } else if s[0] == '\r' {
        if s.len() >= 2 && s[1] == '\n' {
            seq!['\n'] + normalize(s.skip(2))
        } else {
            seq!['\n'] + normalize(s.skip(1))
        }
    } else {
        seq![s[0]] + normalize(s.skip(1))
    }
}

pub open spec fn trim_start(s: Seq<char>) -> Seq<char>
    decreases s.len(),
{
    if s.len() > 0 && is_space(s[0]) {
        trim_start(s.skip(1))
    } else {
        s
    }
}

pub open spec fn trim_end(s: Seq<char>) -> Seq<char>
    decreases s.len(),
{
    if s.len() > 0 && is_space(s.last()) {
        trim_end(s.drop_last())
    } else {
        s
    }
}

/// Whitespace stripped from both ends.
pub open spec fn trim(s: Seq<char>) -> Seq<char> {
    trim_end(trim_start(s))
}

/// The fields of `s` between occurrences of the separator, leftmost
/// match first, empty fields kept.
pub open spec fn split_on(s: Seq<char>, sep: Seq<char>) -> Seq<Seq<char>>
    decreases s.len(),
{
    if sep.len() == 0 || s.len() < sep.len() {
        seq![s]
    } else if s.take(sep.len() as int) == sep {
        seq![Seq::<char>::empty()] + split_on(s.skip(sep.len() as int), sep)
    } else {
        let r = split_on(s.skip(1), sep);
        seq![seq![s[0]] + r[0]] + r.skip(1)
    }
}

/// The fields joined back with the separator between them.
pub open spec fn join_on(parts: Seq<Seq<char>>, sep: Seq<char>) -> Seq<char>
    decreases parts.len(),
{
    if parts.len() == 0 {
        Seq::empty()
    } else if parts.len() == 1 {
        parts[0]
    } else {
        parts[0] + sep + join_on(parts.skip(1), sep)
    }
}

pub proof fn lemma_split_on_len(s: Seq<char>, sep: Seq<char>)
    ensures
        split_on(s, sep).len() >= 1,
    decreases s.len(),
{
    if sep.len() == 0 || s.len() < sep.len() {
    } else if s.take(sep.len() as int) == sep {
    } else {
        lemma_split_on_len(s.skip(1), sep);
    }
}

/// Joining the fields of a split restores the text: `split_on` and
/// `join_on` are inverse for any non-empty separator.
pub proof fn lemma_join_split(s: Seq<char>, sep: Seq<char>)
    requires
        sep.len() >= 1,
    ensures
        join_on(split_on(s, sep), sep) == s,
    decreases s.len(),
{
    if s.len() < sep.len() {
        assert(join_on(seq![s], sep) == s);
    } else if s.take(sep.len() as int) == sep {
        let rest = s.skip(sep.len() as int);
        let r = split_on(rest, sep);
        lemma_split_on_len(rest, sep);
        lemma_join_split(rest, sep);
        let w = seq![Seq::<char>::empty()] + r;
        assert(w.skip(1) =~= r);
        assert(join_on(w, sep) == Seq::<char>::empty() + sep + join_on(r, sep));
        assert(Seq::<char>::empty() + sep + rest =~= s);
    } else {
        let tail = s.skip(1);
        let r = split_on(tail, sep);
        lemma_split_on_len(tail, sep);
        lemma_join_split(tail, sep);
        let w = seq![seq![s[0]] + r[0]] + r.skip(1);
        assert(w[0] == seq![s[0]] + r[0]);
        if r.len() == 1 {
            assert(r =~= seq![r[0]]);
            assert(join_on(r, sep) == r[0]);
            assert(w.len() == 1);
            assert(join_on(w, sep) == seq![s[0]] + r[0]);
            assert(seq![s[0]] + tail =~= s);
        } else {
            assert(w.skip(1) =~= r.skip(1));
            assert(join_on(w, sep) == (seq![s[0]] + r[0]) + sep + join_on(r.skip(1), sep));
            assert(join_on(r, sep) == r[0] + sep + join_on(r.skip(1), sep));
            assert((seq![s[0]] + r[0]) + sep + join_on(r.skip(1), sep) =~= seq![s[0]] + (r[0] + sep
                + join_on(r.skip(1), sep)));
            assert(seq![s[0]] + tail =~= s);
        }
    }
}

/// Joining a further field appends a separator and the field.
pub proof fn lemma_join_push(parts: Seq<Seq<char>>, sep: Seq<char>, p: Seq<char>)
    ensures
        parts.len() == 0 ==> join_on(parts.push(p), sep) == p,
        parts.len() >= 1 ==> join_on(parts.push(p), sep) == join_on(parts, sep) + sep + p,
    decreases parts.len(),
{
    let w = parts.push(p);
    if parts.len() == 0 {
        assert(w.len() == 1 && w[0] == p);
    } else {
        assert(w.skip(1) =~= parts.skip(1).push(p));
        lemma_join_push(parts.skip(1), sep, p);
        if parts.len() == 1 {
            assert(join_on(w, sep) == w[0] + sep + join_on(w.skip(1), sep));
            assert(join_on(w.skip(1), sep) == p);
        } else {
            assert(join_on(w, sep) == w[0] + sep + join_on(w.skip(1), sep));
            assert(join_on(w.skip(1), sep) == join_on(parts.skip(1), sep) + sep + p);
            assert(parts[0] + (join_on(parts.skip(1), sep) + sep + p) =~= (parts[0] + join_on(
                parts.skip(1),
                sep,
            ) + sep) + p) by {
            }
            assert(join_on(parts, sep) == parts[0] + sep + join_on(parts.skip(1), sep));
            assert(join_on(w, sep) =~= join_on(parts, sep) + sep + p);
        }
    }
}

/// Normalizes line endings.
pub fn normalize_chars(v: &Vec<char>) -> (out: Vec<char>)
    ensures
        out@ == normalize(v@),
{
    let ghost s = v@;
    let n = v.len();
    let mut out: Vec<char> = Vec::new();
    let mut i: usize = 0;
    proof {
        assert(s.skip(0) =~= s);
        assert(Seq::<char>::empty() + normalize(s) =~= normalize(s));
    }
    while i < n
        invariant
            i <= n,
            n == v.len(),
            s == v@,
            out@ + normalize(s.skip(i as int)) == normalize(s),
        decreases n - i,
    {
        let ghost t = s.skip(i as int);
        proof {
            assert(t[0] == s[i as int]);
            if i + 1 < n {
                assert(t[1] == s[i + 1]);
            }
        }
        let c = v[i];
        if c == '\r' {
            if i + 1 < n && v[i + 1] == '\n' {
                out.push('\n');
                proof {
                    assert(t.skip(2) =~= s.skip(i + 2));
                    assert((out@ + normalize(s.skip(i + 2))) =~= (out@.drop_last() + (seq!['\n']
                        + normalize(s.skip(i + 2)))));
                }
                i = i + 2;
            } else {
                out.push('\n');
                proof {
                    assert(t.skip(1) =~= s.skip(i + 1));
                    assert((out@ + normalize(s.skip(i + 1))) =~= (out@.drop_last() + (seq!['\n']
                        + normalize(s.skip(i + 1)))));
                }
                i = i + 1;
            }
        } else {
            out.push(c);
            proof {
                assert(t.skip(1) =~= s.skip(i + 1));
                assert((out@ + normalize(s.skip(i + 1))) =~= (out@.drop_last() + (seq![c]
                    + normalize(s.skip(i + 1)))));
            }
            i = i + 1;
        }
    }
    proof {
        assert(s.skip(n as int) =~= Seq::<char>::empty());
        assert(out@ =~= normalize(s));
    }
    out
}

proof fn lemma_trim_start_is(s: Seq<char>, a: int)
    requires
        0 <= a <= s.len(),
        forall|i: int| 0 <= i < a ==> is_space(#[trigger] s[i]),
        a < s.len() ==> !is_space(s[a]),
    ensures
        trim_start(s) == s.skip(a),
    decreases a,
{
    if a == 0 {
        assert(s.skip(0) =~= s);
    } else {
        let t = s.skip(1);
        assert(forall|i: int| 0 <= i < a - 1 ==> #[trigger] t[i] == s[i + 1]);
        lemma_trim_start_is(t, a - 1);
        assert(t.skip(a - 1) =~= s.skip(a));
    }
}

proof fn lemma_trim_end_is(s: Seq<char>, b: int)
    requires
        0 <= b <= s.len(),
        forall|i: int| b <= i < s.len() ==> is_space(#[trigger] s[i]),
        b > 0 ==> !is_space(s[b - 1]),
    ensures
        trim_end(s) == s.take(b),
    decreases s.len(),
{
    if b == s.len() {
        if s.len() > 0 {
            assert(!is_space(s.last()));
        }
        assert(s.take(b) =~= s);
    } else {
        assert(is_space(s.last()));
        let t = s.drop_last();
        assert(forall|i: int| b <= i < t.len() ==> #[trigger] t[i] == s[i]);
        lemma_trim_end_is(t, b);
        assert(t.take(b) =~= s.take(b));
    }
}

/// Strips leading and trailing whitespace.
pub fn trim_chars(v: &Vec<char>) -> (out: Vec<char>)
    ensures
        out@ == trim(v@),
{
    let ghost s = v@;
    let n = v.len();
    let mut a: usize = 0;
    let mut stop = false;
    while a < n && !stop
        invariant
            a <= n,
            n == v.len(),
            s == v@,
            forall|i: int| 0 <= i < a ==> is_space(#[trigger] s[i]),
            stop ==> a < n && !is_space(s[a as int]),
        decreases n - a + (if stop { 0int } else { 1 }),
    {
        let c = v[a];
        if c == ' ' || c == '\t' || c == '\n' || c == '\r' || c == '\u{000C}' {
            a = a + 1;
        } else {
            stop = true;
        }
    }
    let mut b: usize = n;
    let mut stop2 = false;
    while b > a && !stop2
        invariant
            a <= b <= n,
            n == v.len(),
            s == v@,
            forall|i: int| b <= i < n ==> is_space(#[trigger] s[i]),
            stop2 ==> b > a && !is_space(s[b - 1]),
        decreases b + (if stop2 { 0int } else { 1 }),
    {
        let c = v[b - 1];
        if c == ' ' || c == '\t' || c == '\n' || c == '\r' || c == '\u{000C}' {
            b = b - 1;
        } else {
            stop2 = true;
        }
    }
    proof {
        lemma_trim_start_is(s, a as int);
        let t = s.skip(a as int);
        assert(forall|i: int| 0 <= i < t.len() ==> #[trigger] t[i] == s[i + a]);
        lemma_trim_end_is(t, b - a);
        assert(t.take(b - a) =~= s.subrange(a as int, b as int));
    }
    let mut out: Vec<char> = Vec::new();
    let mut j = a;
    while j < b
        invariant
            a <= j <= b <= n,
            n == v.len(),
            s == v@,
            out@ == s.subrange(a as int, j as int),
        decreases b - j,
    {
        out.push(v[j]);
        proof {
            assert(s.subrange(a as int, j + 1) =~= s.subrange(a as int, j as int).push(
                s[j as int],
            ));
        }
        j = j + 1;
    }
    out
}

/// The first field of a split, extended at the front.
spec fn cons_first(pre: Seq<char>, r: Seq<Seq<char>>) -> Seq<Seq<char>> {
    seq![pre + r[0]] + r.skip(1)
}

/// Compares a window of `v` against `sep`.
fn matches_at(v: &Vec<char>, i: usize, sep: &Vec<char>) -> (b: bool)
    requires
        i + sep.len() <= v.len(),
    ensures
        b == (v@.subrange(i as int, i + sep@.len()) == sep@),
{
    let ghost w = v@.subrange(i as int, i + sep@.len());
    let mut j: usize = 0;
    while j < sep.len()
        invariant
            j <= sep.len(),
            i + sep.len() <= v.len(),
            w == v@.subrange(i as int, i + sep@.len()),
            forall|q: int| 0 <= q < j ==> #[trigger] w[q] == sep@[q],
        decreases sep.len() - j,
    {
        if v[i + j] != sep[j] {
            proof {
                assert(w[j as int] == v@[i + j]);
                assert(w[j as int] != sep@[j as int]);
            }
            return false;
        }
        j = j + 1;
    }
    proof {
        assert(w =~= sep@);
    }
    true
}

/// Splits `v` on every occurrence of the separator.
pub fn split_chars(v: &Vec<char>, sep: &Vec<char>) -> (r: Vec<Vec<char>>)
    requires
        sep@.len() >= 1,
    ensures
        r.deep_view() == split_on(v@, sep@),
{
    let ghost s = v@;
    let ghost p = sep@;
    let n = v.len();
    let slen = sep.len();
    let mut fields: Vec<Vec<char>> = Vec::new();
    let mut cur: Vec<char> = Vec::new();
    let mut i: usize = 0;
    proof {
        assert(s.skip(0) =~= s);
        lemma_split_on_len(s, p);
        assert(cons_first(Seq::<char>::empty(), split_on(s, p)) =~~= split_on(s, p)) by {
            let r = split_on(s, p);
            assert(Seq::<char>::empty() + r[0] =~= r[0]);
            assert(seq![r[0]] + r.skip(1) =~~= r);
        }
        assert(fields.deep_view() + split_on(s, p) =~~= split_on(s, p));
    }
    while i < n
        invariant
            i <= n,
            n == v.len(),
            slen == sep.len(),
            s == v@,
            p == sep@,
            p.len() >= 1,
            split_on(s, p) == fields.deep_view() + cons_first(cur@, split_on(s.skip(i as int), p)),
        decreases n - i,
    {
        let ghost t = s.skip(i as int);
        let hit = if slen <= n - i {
            matches_at(v, i, sep)
        } else {
            false
        };
        proof {
            lemma_split_on_len(s.skip(i as int), p);
            if slen <= n - i {
                assert(t.take(p.len() as int) =~= s.subrange(i as int, i + p.len()));
            }
        }
        if hit {
            let ghost fd = fields.deep_view();
            let ghost cv = cur@;
            proof {
                assert(t.skip(p.len() as int) =~= s.skip(i + slen));
                lemma_split_on_len(s.skip(i + slen), p);
            }
            fields.push(cur);
            cur = Vec::new();
            proof {
                let r2 = split_on(s.skip(i + slen), p);
                assert(split_on(t, p) == seq![Seq::<char>::empty()] + r2);
                assert(cons_first(cv, split_on(t, p)) =~~= seq![cv] + r2) by {
                    assert((seq![Seq::<char>::empty()] + r2)[0] == Seq::<char>::empty());
                    assert(cv + Seq::<char>::empty() =~= cv);
                    assert((seq![Seq::<char>::empty()] + r2).skip(1) =~= r2);
                }
                assert(cons_first(cur@, r2) =~~= r2) by {
                    assert(Seq::<char>::empty() + r2[0] =~= r2[0]);
                    assert(seq![r2[0]] + r2.skip(1) =~~= r2);
                }
                assert(fields.deep_view() =~~= fd.push(cv));
                assert(fd + (seq![cv] + r2) =~~= fd.push(cv) + r2);
                assert(split_on(s, p) =~~= fields.deep_view() + cons_first(
                    cur@,
                    split_on(s.skip(i + slen), p),
                ));
            }
            i = i + slen;
        } else {
            proof {
                assert(t.len() >= 1);
                assert(t.skip(1) =~= s.skip(i + 1));
                assert(t[0] == s[i as int]);
                if t.len() < p.len() {
                    assert(split_on(t, p) == seq![t]);
                    assert(split_on(t.skip(1), p) == seq![t.skip(1)]);
                    assert(cons_first(cur@, seq![t]) =~~= cons_first(
                        cur@.push(s[i as int]),
                        seq![t.skip(1)],
                    )) by {
                        assert(cur@ + t =~= cur@.push(s[i as int]) + t.skip(1));
                        assert(seq![t].skip(1) =~= Seq::<Seq<char>>::empty());
                        assert(seq![t.skip(1)].skip(1) =~= Seq::<Seq<char>>::empty());
                    }
                } else {
                    assert(t.take(p.len() as int) != p);
                    let r1 = split_on(t.skip(1), p);
                    lemma_split_on_len(t.skip(1), p);
                    assert(split_on(t, p) == seq![seq![t[0]] + r1[0]] + r1.skip(1));
                    assert(cons_first(cur@, split_on(t, p)) =~~= cons_first(
                        cur@.push(s[i as int]),
                        r1,
                    )) by {
                        assert((seq![seq![t[0]] + r1[0]] + r1.skip(1))[0] == seq![t[0]] + r1[0]);
                        assert(cur@ + (seq![t[0]] + r1[0]) =~= (cur@.push(s[i as int])) + r1[0]);
                        assert((seq![seq![t[0]] + r1[0]] + r1.skip(1)).skip(1) =~= r1.skip(1));
                    }
                }
            }
            cur.push(v[i]);
            i = i + 1;
        }
    }
    let ghost fd = fields.deep_view();
    let ghost cv = cur@;
    proof {
        assert(s.skip(n as int) =~= Seq::<char>::empty());
        assert(split_on(Seq::<char>::empty(), p) == seq![Seq::<char>::empty()]);
        assert(cons_first(cv, seq![Seq::<char>::empty()]) =~~= seq![cv]) by {
            assert(cv + Seq::<char>::empty() =~= cv);
            assert(seq![Seq::<char>::empty()].skip(1) =~= Seq::<Seq<char>>::empty());
        }
    }
    fields.push(cur);
    proof {
        assert(fields.deep_view() =~~= fd.push(cv));
        assert(fd + seq![cv] =~~= fd.push(cv));
        assert(fields.deep_view() =~~= split_on(s, p));
    }
    fields
}

} // verus!
