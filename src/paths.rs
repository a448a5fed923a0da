//! Which component owns a changed file: the component whose directory is the
//! longest leading part of the file's path.
use vstd::prelude::*;
use vstd::string::StrSliceExecFns;
use crate::graph::{holds, keys_of};
use crate::read::add_once;
use crate::text::{chars_of, pieces, split_at_char, string_models};

verus! {

/// The first `n` pieces of a path that name something: not empty, not `.`.
pub open spec fn kept_segments(ps: Seq<Seq<char>>, n: int) -> Seq<Seq<char>>
    decreases n,
{
    if n <= 0 {
        Seq::empty()
    } else if ps[n - 1].len() > 0 && ps[n - 1] != seq!['.'] {
        kept_segments(ps, n - 1).push(ps[n - 1])
    } else {
        kept_segments(ps, n - 1)
    }
}

/// The components of a path, between `/`.
pub open spec fn segments(s: Seq<char>) -> Seq<Seq<char>> {
    kept_segments(pieces(s, '/'), pieces(s, '/').len() as int)
}

/// Path `c` is a leading part of path `f`, component by component.
pub open spec fn is_path_prefix(c: Seq<Seq<char>>, f: Seq<Seq<char>>) -> bool {
    c.len() <= f.len() && f.take(c.len() as int) == c
}

/// Among the first `n` components, the one with the most path components
/// that leads the path of `f`; the first such on a tie.
pub open spec fn owner(cs: Seq<Seq<char>>, f: Seq<char>, n: int) -> Option<int>
    decreases n,
{
    if n <= 0 {
        None
    } else {
        let best = owner(cs, f, n - 1);
        let here = segments(cs[n - 1]);
        if is_path_prefix(here, segments(f)) && match best {
            None => true,
            Some(j) => here.len() > segments(cs[j]).len(),
        } {
            Some(n - 1)
        } else {
            best
        }
    }
}

/// The owners of the first `n` files, each once, in order.
pub open spec fn owners(cs: Seq<Seq<char>>, files: Seq<Seq<char>>, n: int) -> Seq<Seq<char>>
    decreases n,
{
    if n <= 0 {
        Seq::empty()
    } else {
        match owner(cs, files[n - 1], cs.len() as int) {
            Some(j) => add_once(owners(cs, files, n - 1), cs[j]),
            None => owners(cs, files, n - 1),
        }
    }
}

/// The components of a path.
fn segments_of(path: &String) -> (r: Vec<String>)
    ensures
        string_models(r@) == segments(path@),
{
    let text = path.as_str();
    let cs = chars_of(text);
    let parts = split_at_char(text, &cs, 0, cs.len(), '/');
    assert(cs@.subrange(0, cs.len() as int) == cs@);
    let ghost ps = string_models(parts@);
    let mut out: Vec<String> = Vec::new();
    let mut i: usize = 0;
    while i < parts.len()
        invariant
            ps == string_models(parts@),
            ps == pieces(path@, '/'),
            0 <= i <= parts.len(),
            string_models(out@) == kept_segments(ps, i as int),
        decreases parts.len() - i,
    {
        let p = parts[i].as_str();
        assert(ps[i as int] == p@);
        let len = p.unicode_len();
        let dot = len == 1 && p.get_char(0) == '.';
        proof {
            if len == 1 {
                if dot {
                    assert(p@ =~= seq!['.']);
                } else {
                    assert(p@ != seq!['.']) by {
                        if p@ == seq!['.'] {
                            assert(p@[0] == '.');
                        }
                    }
                }
            }
        }
        if len > 0 && !dot {
            let ghost before = out@;
            out.push(parts[i].clone());
            assert(string_models(out@) =~= string_models(before).push(ps[i as int]));
        }
        i = i + 1;
    }
    out
}

/// Whether the path components `c` lead the path components `f`.
fn leads(c: &Vec<String>, f: &Vec<String>) -> (r: bool)
    ensures
        r == is_path_prefix(string_models(c@), string_models(f@)),
{
    let ghost cm = string_models(c@);
    let ghost fm = string_models(f@);
    if c.len() > f.len() {
        return false;
    }
    let mut k: usize = 0;
    while k < c.len()
        invariant
            cm == string_models(c@),
            fm == string_models(f@),
            c.len() <= f.len(),
            0 <= k <= c.len(),
            forall|q: int| 0 <= q < k ==> cm[q] == fm[q],
        decreases c.len() - k,
    {
        if c[k] != f[k] {
            assert(fm.take(cm.len() as int)[k as int] != cm[k as int]);
            return false;
        }
        k = k + 1;
    }
    assert(fm.take(cm.len() as int) =~= cm);
    true
}

/// The components that own the changed files, each once, in the order the
/// files come: for each file, the component whose path leads the file's
/// path with the most path components. A file that no component owns is
/// left out.
pub fn changed_components(components: &Vec<String>, files: &Vec<String>) -> (r: Vec<String>)
    ensures
        string_models(r@) == owners(string_models(components@), string_models(files@), files.len() as int),
{
    let ghost cs = string_models(components@);
    let ghost fs = string_models(files@);
    let mut component_segments: Vec<Vec<String>> = Vec::new();
    let mut c: usize = 0;
    while c < components.len()
        invariant
            cs == string_models(components@),
            0 <= c <= components.len(),
            component_segments.len() == c,
            forall|j: int| 0 <= j < c ==> string_models(#[trigger] component_segments@[j]@) == segments(cs[j]),
        decreases components.len() - c,
    {
        let segs = segments_of(&components[c]);
        component_segments.push(segs);
        c = c + 1;
    }
    let mut out: Vec<String> = Vec::new();
    let mut i: usize = 0;
    while i < files.len()
        invariant
            cs == string_models(components@),
            fs == string_models(files@),
            component_segments.len() == components.len(),
            forall|j: int| 0 <= j < components.len() ==> string_models(#[trigger] component_segments@[j]@) == segments(cs[j]),
            0 <= i <= files.len(),
            string_models(out@) == owners(cs, fs, i as int),
        decreases files.len() - i,
    {
        let file_segments = segments_of(&files[i]);
        assert(fs[i as int] == files@[i as int]@);
        let mut best: Option<usize> = None;
        let mut best_len: usize = 0;
        let mut j: usize = 0;
        while j < components.len()
            invariant
                cs == string_models(components@),
                fs == string_models(files@),
                i < files.len(),
                string_models(file_segments@) == segments(fs[i as int]),
                component_segments.len() == components.len(),
                forall|q: int| 0 <= q < components.len() ==> string_models(#[trigger] component_segments@[q]@) == segments(cs[q]),
                0 <= j <= components.len(),
                match best {
                    None => owner(cs, fs[i as int], j as int) == None::<int>,
                    Some(b) => owner(cs, fs[i as int], j as int) == Some(b as int) && b < j && best_len == segments(cs[b as int]).len(),
                },
            decreases components.len() - j,
        {
            let segs = &component_segments[j];
            assert(string_models(segs@) == segments(cs[j as int]));
            if leads(segs, &file_segments) {
                let better = match best {
                    None => true,
                    Some(_) => segs.len() > best_len,
                };
                if better {
                    best = Some(j);
                    best_len = segs.len();
                }
            }
            j = j + 1;
        }
        match best {
            Some(b) => {
                let name = &components[b];
                assert(cs[b as int] == name@);
                let seen = holds(&out, name);
                assert(keys_of(out@) == string_models(out@));
                if !seen {
                    let ghost before = out@;
                    out.push(name.clone());
                    assert(string_models(out@) =~= string_models(before).push(name@));
                }
            },
            None => {},
        }
        i = i + 1;
    }
    out
}

} // verus!
