//! Lines, whitespace and trimming, stated over sequences of characters.
use vstd::prelude::*;
use vstd::std_specs::iter::IteratorSpec;

verus! {

/// Unicode `White_Space`: the characters that `char::is_whitespace` accepts.
pub open spec fn is_white_space(c: char) -> bool {
    ('\u{9}' <= c && c <= '\u{d}') || c == ' ' || c == '\u{85}' || c == '\u{a0}' || c == '\u{1680}'
        || ('\u{2000}' <= c && c <= '\u{200a}') || c == '\u{2028}' || c == '\u{2029}' || c == '\u{202f}'
        || c == '\u{205f}' || c == '\u{3000}'
}

pub fn white_space(c: char) -> (r: bool)
    ensures
        r == is_white_space(c),
{
    ('\u{9}' <= c && c <= '\u{d}') || c == ' ' || c == '\u{85}' || c == '\u{a0}' || c == '\u{1680}'
        || ('\u{2000}' <= c && c <= '\u{200a}') || c == '\u{2028}' || c == '\u{2029}' || c == '\u{202f}'
        || c == '\u{205f}' || c == '\u{3000}'
}

/// `s` without leading whitespace.
pub open spec fn trim_start(s: Seq<char>) -> Seq<char>
    decreases s.len(),
{
    if s.len() > 0 && is_white_space(s[0]) {
        trim_start(s.drop_first())
    } else {
        s
    }
}

/// `s` without trailing whitespace.
pub open spec fn trim_end(s: Seq<char>) -> Seq<char>
    decreases s.len(),
{
    if s.len() > 0 && is_white_space(s.last()) {
        trim_end(s.drop_last())
    } else {
        s
    }
}

/// `s` without leading or trailing whitespace.
pub open spec fn trim(s: Seq<char>) -> Seq<char> {
    trim_end(trim_start(s))
}

/// `s` without trailing occurrences of `c`.
pub open spec fn trim_end_char(s: Seq<char>, c: char) -> Seq<char>
    decreases s.len(),
{
    if s.len() > 0 && s.last() == c {
        trim_end_char(s.drop_last(), c)
    } else {
        s
    }
}

/// The pieces of `s` between occurrences of `sep`, the last one possibly empty.
pub open spec fn pieces(s: Seq<char>, sep: char) -> Seq<Seq<char>>
    decreases s.len(),
{
    if s.len() == 0 {
        seq![Seq::empty()]
    } else {
        let p = pieces(s.drop_last(), sep);
        if s.last() == sep {
            p.push(Seq::empty())
        } else {
            p.update(p.len() - 1, p.last().push(s.last()))
        }
    }
}

/// The characters of `s`, one by one.
pub fn chars_of(s: &str) -> (r: Vec<char>)
    ensures
        r@ == s@,
{
    broadcast use vstd::string::group_string_axioms;

    let mut it = s.chars();
    let mut r: Vec<char> = Vec::new();
    loop
        invariant
            r@ + it.remaining() == s@,
            it.obeys_prophetic_iter_laws(),
            it.decrease() is Some,
        ensures
            r@ == s@,
        decreases it.decrease()->0,
    {
        match it.next() {
            Some(c) => {
                assert(r@.push(c) + it.remaining() =~= s@);
                r.push(c);
            },
            None => {
                assert(r@ =~= s@);
                break;
            },
        }
    }
    r
}

/// The bounds of `cs[a..b]` without leading or trailing whitespace.
pub fn trim_bounds(cs: &Vec<char>, a: usize, b: usize) -> (r: (usize, usize))
    requires
        a <= b <= cs.len(),
    ensures
        a <= r.0 <= r.1 <= b,
        cs@.subrange(r.0 as int, r.1 as int) == trim(cs@.subrange(a as int, b as int)),
{
    let mut x = a;
    while x < b && white_space(cs[x])
        invariant
            a <= x <= b <= cs.len(),
            trim_start(cs@.subrange(a as int, b as int)) == trim_start(cs@.subrange(x as int, b as int)),
        decreases b - x,
    {
        assert(cs@.subrange(x as int, b as int).drop_first() == cs@.subrange(x + 1, b as int));
        x = x + 1;
    }
    assert(trim_start(cs@.subrange(x as int, b as int)) == cs@.subrange(x as int, b as int));
    let mut y = b;
    while y > x && white_space(cs[y - 1])
        invariant
            a <= x <= y <= b <= cs.len(),
            trim(cs@.subrange(a as int, b as int)) == trim_end(cs@.subrange(x as int, y as int)),
        decreases y - x,
    {
        assert(cs@.subrange(x as int, y as int).drop_last() == cs@.subrange(x as int, y - 1));
        y = y - 1;
    }
    (x, y)
}

/// The end of `cs[a..b]` without trailing occurrences of `c`.
pub fn trim_end_bound(cs: &Vec<char>, a: usize, b: usize, c: char) -> (r: usize)
    requires
        a <= b <= cs.len(),
    ensures
        a <= r <= b,
        cs@.subrange(a as int, r as int) == trim_end_char(cs@.subrange(a as int, b as int), c),
{
    let mut y = b;
    while y > a && cs[y - 1] == c
        invariant
            a <= y <= b <= cs.len(),
            trim_end_char(cs@.subrange(a as int, b as int), c) == trim_end_char(cs@.subrange(a as int, y as int), c),
        decreases y - a,
    {
        assert(cs@.subrange(a as int, y as int).drop_last() == cs@.subrange(a as int, y - 1));
        y = y - 1;
    }
    y
}

/// Relies on `String: FromIterator<char>`: collecting characters gives the
/// string of exactly those characters, in order.
#[verifier::external_body]
pub(crate) fn slice_string(cs: &Vec<char>, a: usize, b: usize) -> (r: String)
    requires
        a <= b <= cs.len(),
    ensures
        r@ == cs@.subrange(a as int, b as int),
{
    cs[a..b].iter().collect()
}

/// The end of `cs[a..b]` without trailing whitespace.
pub fn trim_end_white(cs: &Vec<char>, a: usize, b: usize) -> (r: usize)
    requires
        a <= b <= cs.len(),
    ensures
        a <= r <= b,
        cs@.subrange(a as int, r as int) == trim_end(cs@.subrange(a as int, b as int)),
{
    let mut y = b;
    while y > a && white_space(cs[y - 1])
        invariant
            a <= y <= b <= cs.len(),
            trim_end(cs@.subrange(a as int, b as int)) == trim_end(cs@.subrange(a as int, y as int)),
        decreases y - a,
    {
        assert(cs@.subrange(a as int, y as int).drop_last() == cs@.subrange(a as int, y - 1));
        y = y - 1;
    }
    y
}

/// The models of a list of strings.
pub open spec fn string_models(v: Seq<String>) -> Seq<Seq<char>> {
    v.map_values(|s: String| s@)
}

/// The pieces of `text[a..b]` between occurrences of `sep`, as strings.
pub fn split_at_char(text: &str, cs: &Vec<char>, a: usize, b: usize, sep: char) -> (r: Vec<String>)
    requires
        cs@ == text@,
        a <= b <= cs.len(),
    ensures
        string_models(r@) == pieces(cs@.subrange(a as int, b as int), sep),
{
    let mut out: Vec<String> = Vec::new();
    let mut start: usize = a;
    let mut j: usize = a;
    proof {
        assert(cs@.subrange(a as int, a as int) =~= Seq::<char>::empty());
        assert(string_models(out@).push(cs@.subrange(a as int, a as int)) =~= seq![Seq::<char>::empty()]);
    }
    while j < b
        invariant
            cs@ == text@,
            a <= start <= j <= b <= cs.len(),
            pieces(cs@.subrange(a as int, j as int), sep) == string_models(out@).push(cs@.subrange(start as int, j as int)),
        decreases b - j,
    {
        assert(cs@.subrange(a as int, j + 1).drop_last() == cs@.subrange(a as int, j as int));
        assert(cs@.subrange(a as int, j + 1).last() == cs@[j as int]);
        if cs[j] == sep {
            let piece = slice_string(cs, start, j);
            let ghost before = out@;
            out.push(piece);
            proof {
                assert(string_models(out@) =~= string_models(before).push(piece@));
                assert(cs@.subrange(j + 1, j + 1) == Seq::<char>::empty());
            }
            start = j + 1;
        } else {
            proof {
                let p = pieces(cs@.subrange(a as int, j as int), sep);
                assert(p.last() == cs@.subrange(start as int, j as int));
                assert(cs@.subrange(start as int, j + 1) == cs@.subrange(start as int, j as int).push(cs@[j as int]));
                assert(p.update(p.len() - 1, p.last().push(cs@[j as int])) =~= string_models(out@).push(cs@.subrange(start as int, j + 1)));
            }
        }
        j = j + 1;
    }
    let piece = slice_string(cs, start, b);
    let ghost before = out@;
    out.push(piece);
    assert(string_models(out@) =~= string_models(before).push(piece@));
    out
}

} // verus!
