//! The lexicographic order of strings, and sorted lists without repeats.
//!
//! Strings compare character by character by code point, which is the order
//! of their UTF-8 bytes.
use vstd::prelude::*;

use crate::team::names_view;
use crate::text::chars_of;

verus! {

/// `a` comes strictly before `b`.
pub open spec fn chars_lt(a: Seq<char>, b: Seq<char>) -> bool
    decreases a.len(),
{
    if a.len() == 0 {
        b.len() > 0
    } else if b.len() == 0 {
        false
    } else if a[0] != b[0] {
        a[0] < b[0]
    } else {
        chars_lt(a.drop_first(), b.drop_first())
    }
}

pub proof fn lemma_chars_lt_irreflexive(a: Seq<char>)
    ensures
        !chars_lt(a, a),
    decreases a.len(),
{
    if a.len() > 0 {
        lemma_chars_lt_irreflexive(a.drop_first());
    }
}

pub proof fn lemma_chars_lt_transitive(a: Seq<char>, b: Seq<char>, c: Seq<char>)
    requires
        chars_lt(a, b),
        chars_lt(b, c),
    ensures
        chars_lt(a, c),
    decreases a.len(),
{
    if a.len() > 0 && b.len() > 0 && c.len() > 0 {
        if a[0] == b[0] && b[0] == c[0] {
            lemma_chars_lt_transitive(a.drop_first(), b.drop_first(), c.drop_first());
        }
    }
}

/// Two different strings are ordered one way or the other.
pub proof fn lemma_chars_lt_total(a: Seq<char>, b: Seq<char>)
    ensures
        a == b || chars_lt(a, b) || chars_lt(b, a),
    decreases a.len(),
{
    if a.len() > 0 && b.len() > 0 && a[0] == b[0] {
        lemma_chars_lt_total(a.drop_first(), b.drop_first());
        if a.drop_first() == b.drop_first() {
            assert(a =~= seq![a[0]] + a.drop_first());
            assert(b =~= seq![b[0]] + b.drop_first());
        }
    } else if a.len() == 0 && b.len() == 0 {
        assert(a =~= b);
    }
}

pub proof fn lemma_chars_lt_asymmetric(a: Seq<char>, b: Seq<char>)
    requires
        chars_lt(a, b),
    ensures
        !chars_lt(b, a),
{
    if chars_lt(b, a) {
        lemma_chars_lt_transitive(a, b, a);
        lemma_chars_lt_irreflexive(a);
    }
}

/// Whether `a` comes strictly before `b`.
pub fn chars_before(a: &[char], b: &[char]) -> (r: bool)
    ensures
        r == chars_lt(a@, b@),
{
    let mut i: usize = 0;
    assert(a@.skip(0) =~= a@);
    assert(b@.skip(0) =~= b@);
    while i < a.len() && i < b.len()
        invariant
            i <= a@.len(),
            i <= b@.len(),
            chars_lt(a@, b@) == chars_lt(a@.skip(i as int), b@.skip(i as int)),
        decreases a@.len() - i,
    {
        proof {
            let sa = a@.skip(i as int);
            let sb = b@.skip(i as int);
            assert(sa[0] == a@[i as int]);
            assert(sb[0] == b@[i as int]);
            assert(sa.drop_first() =~= a@.skip(i + 1));
            assert(sb.drop_first() =~= b@.skip(i + 1));
        }
        if a[i] != b[i] {
            return a[i] < b[i];
        }
        i = i + 1;
    }
    proof {
        assert(a@.skip(i as int).len() == a@.len() - i);
    }
    i == a.len() && i < b.len()
}

/// Whether the string `a` comes strictly before `b`.
pub fn str_before(a: &str, b: &str) -> (r: bool)
    ensures
        r == chars_lt(a@, b@),
{
    let va = chars_of(a);
    let vb = chars_of(b);
    chars_before(va.as_slice(), vb.as_slice())
}

/// Each string comes strictly before the next, so none repeats.
pub open spec fn sorted_strictly(s: Seq<Seq<char>>) -> bool {
    forall|i: int, j: int| 0 <= i < j < s.len() ==> chars_lt(#[trigger] s[i], #[trigger] s[j])
}

/// Inserts `x` into the strictly sorted list `v`, unless it is already there.
pub fn insert_sorted(v: &mut Vec<String>, x: String)
    requires
        sorted_strictly(names_view(old(v)@)),
    ensures
        sorted_strictly(names_view(final(v)@)),
        forall|n: Seq<char>|
            #[trigger] names_view(final(v)@).contains(n) <==> (names_view(old(v)@).contains(n)
                || n == x@),
{
    let ghost old_view = names_view(v@);
    let mut p: usize = 0;
    while p < v.len() && str_before(v[p].as_str(), x.as_str())
        invariant
            p <= v@.len(),
            old_view == names_view(v@),
            forall|j: int| 0 <= j < p ==> chars_lt(#[trigger] old_view[j], x@),
        decreases v@.len() - p,
    {
        p = p + 1;
    }
    if p < v.len() && v[p] == x {
        assert(old_view[p as int] == x@);
        return;
    }
    proof {
        if p < v@.len() {
            lemma_chars_lt_total(old_view[p as int], x@);
        }
    }
    let ghost xv = x@;
    v.insert(p, x);
    let ghost new_view = names_view(v@);
    proof {
        assert(new_view =~= old_view.insert(p as int, xv));
        old_view.insert_ensures(p as int, xv);
        assert forall|i: int, j: int| 0 <= i < j < new_view.len() implies chars_lt(
            #[trigger] new_view[i],
            #[trigger] new_view[j],
        ) by {
            if j < p {
            } else if j == p {
                assert(new_view[i] == old_view[i]);
            } else if i < p {
                assert(new_view[j] == old_view[j - 1]);
                assert(chars_lt(old_view[i], xv));
                lemma_chars_lt_transitive(old_view[i], xv, old_view[p as int]);
                if j - 1 > p {
                    lemma_chars_lt_transitive(old_view[i], old_view[p as int], old_view[j - 1]);
                }
            } else if i == p {
                assert(new_view[j] == old_view[j - 1]);
                if j - 1 > p {
                    lemma_chars_lt_transitive(xv, old_view[p as int], old_view[j - 1]);
                }
            } else {
                assert(new_view[i] == old_view[i - 1]);
                assert(new_view[j] == old_view[j - 1]);
            }
        }
        assert forall|n: Seq<char>| new_view.contains(n) <==> (old_view.contains(n) || n == xv) by {
            if old_view.contains(n) {
                let k = choose|k: int| 0 <= k < old_view.len() && old_view[k] == n;
                if k < p {
                    assert(new_view[k] == n);
                } else {
                    assert(new_view[k + 1] == n);
                }
            }
            if n == xv {
                assert(new_view[p as int] == n);
            }
            if new_view.contains(n) {
                let k = choose|k: int| 0 <= k < new_view.len() && new_view[k] == n;
                if k < p {
                    assert(old_view[k] == n);
                } else if k > p {
                    assert(old_view[k - 1] == n);
                }
            }
        }
    }
}

} // verus!
