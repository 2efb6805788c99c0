//! Character-level helpers shared by the rest of the library: building
//! strings one character at a time, lexicographic order on character
//! sequences, and equality of string slices.

use vstd::prelude::*;

verus! {

/// Relies on `String::push` from std: it appends exactly the given
/// character to the end of the string.
pub assume_specification[ String::push ](s: &mut String, c: char)
    ensures
        final(s)@ == old(s)@.push(c),
;

/// Lexicographic "less than or equal" on character sequences, comparing
/// characters by their code points. This is the order in which the
/// caption table is kept (UTF-8 byte order and code-point order agree).
pub open spec fn chars_le(a: Seq<char>, b: Seq<char>) -> bool
    decreases a.len(),
{
    if a.len() == 0 {
        true
    } else if b.len() == 0 {
        false
    } else if a[0] == b[0] {
        chars_le(a.drop_first(), b.drop_first())
    } else {
        (a[0] as int) < (b[0] as int)
    }
}

/// The order is total: any two sequences compare one way or the other.
pub proof fn lemma_chars_le_total(a: Seq<char>, b: Seq<char>)
    ensures
        chars_le(a, b) || chars_le(b, a),
    decreases a.len(),
{
    if a.len() > 0 && b.len() > 0 && a[0] == b[0] {
        lemma_chars_le_total(a.drop_first(), b.drop_first());
    }
}

/// The order is transitive.
pub proof fn lemma_chars_le_trans(a: Seq<char>, b: Seq<char>, c: Seq<char>)
    requires
        chars_le(a, b),
        chars_le(b, c),
    ensures
        chars_le(a, c),
    decreases a.len(),
{
    if a.len() > 0 && b.len() > 0 && c.len() > 0 && a[0] == b[0] && b[0] == c[0] {
        lemma_chars_le_trans(a.drop_first(), b.drop_first(), c.drop_first());
    }
}

/// Decides `chars_le` on two string slices.
pub fn str_le(a: &str, b: &str) -> (r: bool)
    ensures
        r == chars_le(a@, b@),
    decreases a@.len(),
{
    let an = a.unicode_len();
    let bn = b.unicode_len();
    if an == 0 {
        true
    } else if bn == 0 {
        false
    } else {
        let ac = a.get_char(0);
        let bc = b.get_char(0);
        if ac == bc {
            let ra = a.substring_char(1, an);
            let rb = b.substring_char(1, bn);
            assert(ra@ =~= a@.drop_first());
            assert(rb@ =~= b@.drop_first());
            str_le(ra, rb)
        } else {
            (ac as u32) < (bc as u32)
        }
    }
}

/// Decides equality of the character sequences of two string slices.
pub fn str_eq(a: &str, b: &str) -> (r: bool)
    ensures
        r == (a@ == b@),
{
    let an = a.unicode_len();
    let bn = b.unicode_len();
    if an != bn {
        return false;
    }
    let mut i: usize = 0;
    while i < an
        invariant
            0 <= i <= an,
            an == a@.len(),
            an == b@.len(),
            forall|k: int| 0 <= k < i ==> a@[k] == b@[k],
        decreases an - i,
    {
        if a.get_char(i) != b.get_char(i) {
            return false;
        }
        i = i + 1;
    }
    proof {
        assert(a@ =~= b@);
    }
    true
}

/// Filtering a sequence extended by one element keeps the filtered
/// prefix and appends the element exactly when it satisfies the
/// predicate.
pub proof fn lemma_filter_push<A>(s: Seq<A>, pred: spec_fn(A) -> bool, x: A)
    ensures
        s.push(x).filter(pred) == if pred(x) {
            s.filter(pred).push(x)
        } else {
            s.filter(pred)
        },
{
    reveal(Seq::filter);
    assert(s.push(x).drop_last() =~= s);
    assert(s.push(x).last() == x);
}

/// A sequence every element of which fails the predicate filters to the
/// empty sequence.
pub proof fn lemma_filter_all_false<A>(s: Seq<A>, pred: spec_fn(A) -> bool)
    requires
        forall|i: int| 0 <= i < s.len() ==> !pred(s[i]),
    ensures
        s.filter(pred) == Seq::<A>::empty(),
    decreases s.len(),
{
    reveal(Seq::filter);
    if s.len() > 0 {
        lemma_filter_all_false(s.drop_last(), pred);
    }
}

/// Every element of a filtered sequence occurs in the sequence it was
/// filtered from.
pub proof fn lemma_filter_elem_from<A>(s: Seq<A>, pred: spec_fn(A) -> bool, i: int)
    requires
        0 <= i < s.filter(pred).len(),
    ensures
        exists|j: int| 0 <= j < s.len() && s[j] == s.filter(pred)[i],
    decreases s.len(),
{
    reveal(Seq::filter);
    if s.len() > 0 {
        let fd = s.drop_last().filter(pred);
        if pred(s.last()) && i == fd.len() {
            assert(s[s.len() - 1] == s.filter(pred)[i]);
        } else {
            lemma_filter_elem_from(s.drop_last(), pred, i);
            let j = choose|j: int| 0 <= j < s.drop_last().len() && s.drop_last()[j] == fd[i];
            assert(s[j] == s.filter(pred)[i]);
        }
    }
}

} // verus!
