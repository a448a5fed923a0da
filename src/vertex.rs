//! What a graph asks of its vertices and of its edge labels.
use vstd::prelude::*;
use vstd::utf8::{encode_utf8, encode_utf8_decode_utf8};
use core::cmp::Ordering;

verus! {

/// Lexicographic order on byte strings: a proper prefix comes first.
pub open spec fn bytes_precede(a: Seq<u8>, b: Seq<u8>) -> bool
    decreases a.len(),
{
    if a.len() == 0 {
        b.len() > 0
    } else if b.len() == 0 {
        false
    } else if a[0] != b[0] {
        a[0] < b[0]
    } else {
        bytes_precede(a.drop_first(), b.drop_first())
    }
}

proof fn lemma_bytes_precede_irreflexive(a: Seq<u8>)
    ensures
        !bytes_precede(a, a),
    decreases a.len(),
{
    if a.len() > 0 {
        lemma_bytes_precede_irreflexive(a.drop_first());
    }
}

proof fn lemma_bytes_precede_order(a: Seq<u8>, b: Seq<u8>, c: Seq<u8>)
    ensures
        !bytes_precede(a, a),
        bytes_precede(a, b) && bytes_precede(b, c) ==> bytes_precede(a, c),
        a != b ==> bytes_precede(a, b) || bytes_precede(b, a),
    decreases a.len(),
{
    lemma_bytes_precede_irreflexive(a);
    if a.len() > 0 && b.len() > 0 {
        if c.len() > 0 {
            lemma_bytes_precede_order(a.drop_first(), b.drop_first(), c.drop_first());
        } else {
            lemma_bytes_precede_order(a.drop_first(), b.drop_first(), b.drop_first());
        }
        if a[0] == b[0] && a != b {
            assert(a == seq![a[0]] + a.drop_first());
            assert(b == seq![b[0]] + b.drop_first());
        }
    } else if a.len() == 0 && b.len() == 0 {
        assert(a == b);
    }
}

proof fn lemma_bytes_precede_common_prefix(a: Seq<u8>, b: Seq<u8>, i: int)
    requires
        0 <= i <= a.len(),
        i <= b.len(),
        a.take(i) == b.take(i),
    ensures
        bytes_precede(a, b) == bytes_precede(a.skip(i), b.skip(i)),
    decreases i,
{
    if i > 0 {
        assert(a[0] == a.take(i)[0]);
        assert(b[0] == b.take(i)[0]);
        assert(a.drop_first().take(i - 1) == a.take(i).drop_first());
        assert(b.drop_first().take(i - 1) == b.take(i).drop_first());
        lemma_bytes_precede_common_prefix(a.drop_first(), b.drop_first(), i - 1);
        assert(a.drop_first().skip(i - 1) == a.skip(i));
        assert(b.drop_first().skip(i - 1) == b.skip(i));
    } else {
        assert(a.skip(0) == a);
        assert(b.skip(0) == b);
    }
}

/// A vertex of a graph: a value with a model and a strict total order on models.
pub trait Vertex: Sized + View {
    /// The order in which vertices are stored and listed.
    spec fn precedes(a: Self::V, b: Self::V) -> bool;

    proof fn lemma_precedes_is_strict_total_order(a: Self::V, b: Self::V, c: Self::V)
        ensures
            !Self::precedes(a, a),
            Self::precedes(a, b) && Self::precedes(b, c) ==> Self::precedes(a, c),
            a != b ==> Self::precedes(a, b) || Self::precedes(b, a),
    ;

    fn compare(&self, other: &Self) -> (r: Ordering)
        ensures
            (r == Ordering::Less) == Self::precedes(self@, other@),
            (r == Ordering::Equal) == (self@ == other@),
            (r == Ordering::Greater) == Self::precedes(other@, self@),
    ;

    fn duplicate(&self) -> (r: Self)
        ensures
            r@ == self@,
    ;
}

/// An edge label: a copyable value whose equality can be tested.
pub trait Edge: Sized + Copy {
    fn same(&self, other: &Self) -> (r: bool)
        ensures
            r == (*self == *other),
    ;
}

impl Vertex for usize {
    open spec fn precedes(a: usize, b: usize) -> bool {
        a < b
    }

    proof fn lemma_precedes_is_strict_total_order(a: usize, b: usize, c: usize) {
    }

    fn compare(&self, other: &usize) -> (r: Ordering) {
        if *self < *other {
            Ordering::Less
        } else if *self == *other {
            Ordering::Equal
        } else {
            Ordering::Greater
        }
    }

    fn duplicate(&self) -> (r: usize) {
        *self
    }
}

impl Vertex for String {
    /// Strings are ordered by their UTF-8 bytes, as `str` orders them.
    open spec fn precedes(a: Seq<char>, b: Seq<char>) -> bool {
        bytes_precede(encode_utf8(a), encode_utf8(b))
    }

    proof fn lemma_precedes_is_strict_total_order(a: Seq<char>, b: Seq<char>, c: Seq<char>) {
        lemma_bytes_precede_order(encode_utf8(a), encode_utf8(b), encode_utf8(c));
        if a != b {
            encode_utf8_decode_utf8(a);
            encode_utf8_decode_utf8(b);
        }
    }

    fn compare(&self, other: &String) -> (r: Ordering) {
        let a = self.as_str().as_bytes();
        let b = other.as_str().as_bytes();
        let ghost sa = encode_utf8(self@);
        let ghost sb = encode_utf8(other@);
        let mut i: usize = 0;
        while i < a.len() && i < b.len() && a[i] == b[i]
            invariant
                a@ == sa,
                b@ == sb,
                0 <= i <= a.len(),
                i <= b.len(),
                a@.take(i as int) == b@.take(i as int),
            decreases a.len() - i,
        {
            assert(a@.take(i + 1) == a@.take(i as int).push(a@[i as int]));
            assert(b@.take(i + 1) == b@.take(i as int).push(b@[i as int]));
            i = i + 1;
        }
        proof {
            lemma_bytes_precede_common_prefix(sa, sb, i as int);
            lemma_bytes_precede_common_prefix(sb, sa, i as int);
            lemma_bytes_precede_order(sa, sb, sa);
            encode_utf8_decode_utf8(self@);
            encode_utf8_decode_utf8(other@);
            if i == a.len() && i == b.len() {
                assert(sa == sa.take(i as int));
                assert(sb == sb.take(i as int));
            }
        }
        if i < a.len() && i < b.len() {
            if a[i] < b[i] {
                Ordering::Less
            } else {
                Ordering::Greater
            }
        } else if i < b.len() {
            Ordering::Less
        } else if i < a.len() {
            Ordering::Greater
        } else {
            Ordering::Equal
        }
    }

    fn duplicate(&self) -> (r: String) {
        self.clone()
    }
}

impl Edge for usize {
    fn same(&self, other: &usize) -> (r: bool) {
        *self == *other
    }
}

} // verus!
