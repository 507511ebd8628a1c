use vstd::prelude::*;
use crate::tokenizer::{find_char, lemma_find_char};

verus! {

/// Whether `c` has the Unicode Alphabetic property.
pub uninterp spec fn alphabetic(c: char) -> bool;

/// Whether `c` has the Unicode White_Space property: U+0009 to U+000D,
/// U+0020, U+0085, U+00A0, U+1680, U+2000 to U+200A, U+2028, U+2029, U+202F,
/// U+205F and U+3000.
pub open spec fn whitespace(c: char) -> bool {
    let u = c as u32;
    ||| 0x9 <= u <= 0xd
    ||| u == 0x20
    ||| u == 0x85
    ||| u == 0xa0
    ||| u == 0x1680
    ||| 0x2000 <= u <= 0x200a
    ||| u == 0x2028
    ||| u == 0x2029
    ||| u == 0x202f
    ||| u == 0x205f
    ||| u == 0x3000
}

/// Relies on `char::is_alphabetic`: the Unicode Alphabetic property of `c`.
#[verifier::external_body]
pub(crate) fn is_alphabetic(c: char) -> (r: bool)
    ensures
        r == alphabetic(c),
{
    c.is_alphabetic()
}

/// Whether `c` is white space; see `whitespace`.
pub fn is_whitespace(c: char) -> (r: bool)
    ensures
        r == whitespace(c),
{
    let u = c as u32;
    (0x9 <= u && u <= 0xd) || u == 0x20 || u == 0x85 || u == 0xa0 || u == 0x1680 || (0x2000 <= u && u
        <= 0x200a) || u == 0x2028 || u == 0x2029 || u == 0x202f || u == 0x205f || u == 0x3000
}

/// Relies on `String::push`: appends one character at the end.
#[verifier::external_body]
pub(crate) fn push_char(s: &mut String, c: char)
    ensures
        final(s)@ == old(s)@.push(c),
{
    s.push(c)
}

pub open spec fn is_digit(c: char) -> bool {
    '0' <= c && c <= '9'
}

pub fn is_decimal_digit(c: char) -> (r: bool)
    ensures
        r == is_digit(c),
{
    '0' <= c && c <= '9'
}

/// The characters of `s`, in order.
pub fn chars_of(s: &str) -> (r: Vec<char>)
    ensures
        r@ == s@,
{
    let mut r: Vec<char> = Vec::new();
    for c in it: s.chars()
        invariant
            r@ == it.seq().take(it.index() as int),
    {
        r.push(c);
    }
    r
}

/// A `String` holding `v[from..to]`.
pub fn string_of(v: &Vec<char>, from: usize, to: usize) -> (r: String)
    requires
        from <= to <= v.len(),
    ensures
        r@ == v@.subrange(from as int, to as int),
{
    let mut r = String::new();
    let mut i: usize = from;
    while i < to
        invariant
            from <= i <= to <= v.len(),
            r@ == v@.subrange(from as int, i as int),
        decreases to - i,
    {
        push_char(&mut r, v[i]);
        assert(v@.subrange(from as int, i + 1) == v@.subrange(from as int, i as int).push(v@[i as int]));
        i = i + 1;
    }
    r
}

/// `l` without one trailing carriage return.
pub open spec fn strip_cr(l: Seq<char>) -> Seq<char> {
    if l.len() > 0 && l.last() == '\r' {
        l.drop_last()
    } else {
        l
    }
}

/// The lines of `s` from index `p` on: split at each `\n`, with one trailing
/// `\r` taken off each line; a final `\n` starts no further line.
pub open spec fn lines_from(s: Seq<char>, p: int) -> Seq<Seq<char>>
    decreases s.len() + 1 - p,
{
    if p < 0 || p >= s.len() {
        Seq::empty()
    } else {
        let j = find_char(s, p, '\n');
        proof {
            lemma_find_char(s, p, '\n');
        }
        seq![strip_cr(s.subrange(p, j))] + lines_from(s, j + 1)
    }
}

pub open spec fn lines_of(s: Seq<char>) -> Seq<Seq<char>> {
    lines_from(s, 0)
}

pub proof fn lemma_lines_from_bounds(s: Seq<char>, p: int)
    requires
        0 <= p <= s.len(),
    ensures
        lines_from(s, p).len() <= s.len() - p,
        forall|k: int| 0 <= k < lines_from(s, p).len() ==> (#[trigger] lines_from(s, p)[k]).len() <= s.len(),
    decreases s.len() - p,
{
    if p < s.len() {
        lemma_find_char(s, p, '\n');
        let j = find_char(s, p, '\n');
        if j < s.len() {
            lemma_lines_from_bounds(s, j + 1);
        }
        let rest = lines_from(s, j + 1);
        assert forall|k: int| 0 <= k < lines_from(s, p).len() implies (#[trigger] lines_from(s, p)[k]).len() <= s.len() by {
            if k > 0 {
                assert(lines_from(s, p)[k] == rest[k - 1]);
            }
        }
    }
}

/// The lines of `s`, as `lines_of` gives them.
pub fn split_lines(s: &Vec<char>) -> (r: Vec<Vec<char>>)
    ensures
        r@.len() == lines_of(s@).len(),
        forall|k: int| 0 <= k < r@.len() ==> (#[trigger] r@[k])@ == lines_of(s@)[k],
{
    let mut r: Vec<Vec<char>> = Vec::new();
    let mut p: usize = 0;
    while p < s.len()
        invariant
            p <= s.len(),
            lines_of(s@) =~= r@.map_values(|v: Vec<char>| v@) + lines_from(s@, p as int),
        decreases s.len() - p,
    {
        let ghost old_r = r@;
        proof {
            lemma_find_char(s@, p as int, '\n');
        }
        let mut line: Vec<char> = Vec::new();
        let mut i: usize = p;
        while i < s.len() && s[i] != '\n'
            invariant
                p <= i <= s.len(),
                find_char(s@, i as int, '\n') == find_char(s@, p as int, '\n'),
                line@ == s@.subrange(p as int, i as int),
            decreases s.len() - i,
        {
            line.push(s[i]);
            assert(s@.subrange(p as int, i + 1) == s@.subrange(p as int, i as int).push(s@[i as int]));
            i = i + 1;
        }
        if line.len() > 0 && line[line.len() - 1] == '\r' {
            line.pop();
        }
        assert(line@ == strip_cr(s@.subrange(p as int, i as int)));
        r.push(line);
        assert(r@.map_values(|v: Vec<char>| v@) =~= old_r.map_values(|v: Vec<char>| v@).push(
            strip_cr(s@.subrange(p as int, i as int)),
        ));
        if i < s.len() {
            p = i + 1;
        } else {
            assert(lines_from(s@, i + 1) =~= lines_from(s@, i as int));
            p = i;
        }
    }
    assert(lines_from(s@, p as int) =~= Seq::<Seq<char>>::empty());
    assert forall|k: int| 0 <= k < r@.len() implies (#[trigger] r@[k])@ == lines_of(s@)[k] by {
        assert(r@.map_values(|v: Vec<char>| v@)[k] == r@[k]@);
    }
    r
}

/// For each character of `x`, whether it is white space.
pub open spec fn ws_flags(x: Seq<char>) -> Seq<bool> {
    Seq::new(x.len(), |i: int| whitespace(x[i]))
}

/// Index of the first flag at or after `i` that is false (a character that
/// is not white space).
pub open spec fn lead_ws(w: Seq<bool>, i: int) -> int
    decreases w.len() - i,
{
    if 0 <= i < w.len() && w[i] {
        lead_ws(w, i + 1)
    } else {
        i
    }
}

/// One past the last flag before `j` that is false.
pub open spec fn trail_ws(w: Seq<bool>, j: int) -> int
    decreases j,
{
    if 0 < j <= w.len() && w[j - 1] {
        trail_ws(w, j - 1)
    } else {
        j
    }
}

/// `x` without the leading and trailing characters that `w` flags as white
/// space.
pub open spec fn trim_with(x: Seq<char>, w: Seq<bool>) -> Seq<char> {
    let a = lead_ws(w, 0);
    if a >= x.len() {
        Seq::empty()
    } else {
        x.subrange(a, trail_ws(w, x.len() as int))
    }
}

/// `x` without leading and trailing white space.
pub open spec fn trim(x: Seq<char>) -> Seq<char> {
    trim_with(x, ws_flags(x))
}

pub proof fn lemma_lead_ws(w: Seq<bool>, i: int)
    requires
        0 <= i <= w.len(),
    ensures
        i <= lead_ws(w, i) <= w.len(),
        lead_ws(w, i) < w.len() ==> !w[lead_ws(w, i)],
    decreases w.len() - i,
{
    if i < w.len() && w[i] {
        lemma_lead_ws(w, i + 1);
    }
}

pub proof fn lemma_trail_ws(w: Seq<bool>, j: int, a: int)
    requires
        0 <= a < j <= w.len(),
        !w[a],
    ensures
        a < trail_ws(w, j) <= j,
    decreases j,
{
    if w[j - 1] {
        lemma_trail_ws(w, j - 1, a);
    }
}

/// The bounds of `trim(x)` inside `x`, when it is not empty.
pub fn trim_bounds(x: &Vec<char>) -> (r: Option<(usize, usize)>)
    ensures
        match r {
            None => trim(x@).len() == 0,
            Some((a, b)) => a < b <= x.len() && trim(x@) == x@.subrange(a as int, b as int),
        },
{
    let mut w: Vec<bool> = Vec::new();
    let mut i: usize = 0;
    while i < x.len()
        invariant
            i <= x.len(),
            w@ == ws_flags(x@).take(i as int),
        decreases x.len() - i,
    {
        w.push(is_whitespace(x[i]));
        assert(ws_flags(x@).take(i + 1) =~= ws_flags(x@).take(i as int).push(whitespace(x@[i as int])));
        i = i + 1;
    }
    assert(w@ =~= ws_flags(x@));
    trim_bounds_with(x, &w)
}

/// The bounds of `trim_with(x, w)` inside `x`, when it is not empty; `w`
/// says for each character whether it is white space.
pub fn trim_bounds_with(x: &Vec<char>, w: &Vec<bool>) -> (r: Option<(usize, usize)>)
    requires
        w.len() == x.len(),
    ensures
        match r {
            None => trim_with(x@, w@).len() == 0,
            Some((a, b)) => a < b <= x.len() && trim_with(x@, w@) == x@.subrange(a as int, b as int),
        },
{
    proof {
        lemma_lead_ws(w@, 0);
    }
    let mut a: usize = 0;
    while a < x.len() && w[a]
        invariant
            a <= x.len(),
            w.len() == x.len(),
            lead_ws(w@, a as int) == lead_ws(w@, 0),
        decreases x.len() - a,
    {
        a = a + 1;
    }
    if a >= x.len() {
        return None;
    }
    proof {
        lemma_trail_ws(w@, x.len() as int, a as int);
    }
    let mut b: usize = x.len();
    while b > 0 && w[b - 1]
        invariant
            b <= x.len(),
            w.len() == x.len(),
            trail_ws(w@, b as int) == trail_ws(w@, x.len() as int),
        decreases b,
    {
        b = b - 1;
    }
    Some((a, b))
}

/// A copy of `v[from..to]`.
pub fn sub_vec(v: &Vec<char>, from: usize, to: usize) -> (r: Vec<char>)
    requires
        from <= to <= v.len(),
    ensures
        r@ == v@.subrange(from as int, to as int),
{
    let mut r: Vec<char> = Vec::new();
    let mut i = from;
    while i < to
        invariant
            from <= i <= to <= v.len(),
            r@ == v@.subrange(from as int, i as int),
        decreases to - i,
    {
        r.push(v[i]);
        assert(v@.subrange(from as int, i + 1) == v@.subrange(from as int, i as int).push(v@[i as int]));
        i = i + 1;
    }
    r
}

} // verus!
