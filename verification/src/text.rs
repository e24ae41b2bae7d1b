//! Character-level helpers shared by the parsers of this crate.
//!
//! Everything here works on the `Seq<char>` view of strings, so that the
//! contracts of the parsers can speak of characters rather than UTF-8 bytes.
use vstd::prelude::*;

verus! {

/// Appending one character to a `String` extends its character view by it.
pub assume_specification[ String::push ](string: &mut String, ch: char)
    ensures
        final(string)@ == old(string)@.push(ch),
;

/// The character of the decimal digit `d`.
pub open spec fn digit_char(d: nat) -> char {
    (d + 48) as char
}

/// The decimal numeral of `n`, without leading zeros.
pub open spec fn decimal_text(n: nat) -> Seq<char>
    decreases n,
{
    if n < 10 {
        seq![digit_char(n)]
    } else {
        decimal_text(n / 10).push(digit_char(n % 10))
    }
}

/// Appends the decimal numeral of `n` to `s`.
pub fn push_decimal(s: &mut String, n: usize)
    ensures
        final(s)@ == old(s)@ + decimal_text(n as nat),
    decreases n,
{
    let ghost start = s@;
    if n >= 10 {
        push_decimal(s, n / 10);
    }
    let d: u8 = (n % 10) as u8;
    s.push((d + 48) as char);
    proof {
        if n < 10 {
            assert(s@ =~= start + decimal_text(n as nat));
        } else {
            assert(s@ =~= start + decimal_text(n as nat));
        }
    }
}

/// `c` occurs in `s`.
pub open spec fn has_char(s: Seq<char>, c: char) -> bool {
    exists|i: int| 0 <= i < s.len() && s[i] == c
}

/// `i` is the position of the first `c` in `s`.
pub open spec fn is_first_index(s: Seq<char>, c: char, i: int) -> bool {
    &&& 0 <= i < s.len()
    &&& s[i] == c
    &&& forall|j: int| 0 <= j < i ==> s[j] != c
}

/// The position of the first `c` in `s`, if any.
pub open spec fn first_index(s: Seq<char>, c: char) -> Option<int> {
    if has_char(s, c) {
        Some(choose|i: int| is_first_index(s, c, i))
    } else {
        None
    }
}

/// `s` split around its first `c`, as `str::split_once` does.
pub open spec fn split_once(s: Seq<char>, c: char) -> Option<(Seq<char>, Seq<char>)> {
    match first_index(s, c) {
        Some(i) => Some((s.take(i), s.skip(i + 1))),
        None => None,
    }
}

/// `prefix` begins `s`.
pub open spec fn starts_with(s: Seq<char>, prefix: Seq<char>) -> bool {
    prefix.len() <= s.len() && s.take(prefix.len() as int) == prefix
}

/// `suffix` ends `s`.
pub open spec fn ends_with(s: Seq<char>, suffix: Seq<char>) -> bool {
    suffix.len() <= s.len() && s.skip(s.len() - suffix.len()) == suffix
}

/// `s` with `prefix` removed from its start, as `str::strip_prefix` does.
pub open spec fn strip_prefix(s: Seq<char>, prefix: Seq<char>) -> Option<Seq<char>> {
    if starts_with(s, prefix) {
        Some(s.skip(prefix.len() as int))
    } else {
        None
    }
}

/// `s` with `suffix` removed from its end, as `str::strip_suffix` does.
pub open spec fn strip_suffix(s: Seq<char>, suffix: Seq<char>) -> Option<Seq<char>> {
    if ends_with(s, suffix) {
        Some(s.take(s.len() - suffix.len()))
    } else {
        None
    }
}

/// `needle` occurs somewhere in `s` as a contiguous run.
pub open spec fn contains_seq(s: Seq<char>, needle: Seq<char>) -> bool {
    exists|i: int| 0 <= i <= s.len() - needle.len() && #[trigger] s.subrange(i, i + needle.len()) == needle
}

pub open spec fn is_ascii_lowercase(c: char) -> bool {
    'a' <= c <= 'z'
}

pub open spec fn is_ascii_uppercase(c: char) -> bool {
    'A' <= c <= 'Z'
}

pub open spec fn is_ascii_digit(c: char) -> bool {
    '0' <= c <= '9'
}

/// The Unicode `White_Space` property, which `char::is_whitespace` tests.
pub open spec fn is_whitespace(c: char) -> bool {
    ||| '\u{9}' <= c <= '\u{d}'
    ||| c == ' '
    ||| c == '\u{85}'
    ||| c == '\u{a0}'
    ||| c == '\u{1680}'
    ||| '\u{2000}' <= c <= '\u{200a}'
    ||| c == '\u{2028}'
    ||| c == '\u{2029}'
    ||| c == '\u{202f}'
    ||| c == '\u{205f}'
    ||| c == '\u{3000}'
}

pub fn char_is_whitespace(c: char) -> (r: bool)
    ensures
        r == is_whitespace(c),
{
    ('\u{9}' <= c && c <= '\u{d}') || c == ' ' || c == '\u{85}' || c == '\u{a0}' || c
        == '\u{1680}' || ('\u{2000}' <= c && c <= '\u{200a}') || c == '\u{2028}' || c == '\u{2029}'
        || c == '\u{202f}' || c == '\u{205f}' || c == '\u{3000}'
}

/// The characters of `s`, in order.
pub fn chars_of(s: &str) -> (v: Vec<char>)
    ensures
        v@ == s@,
{
    let n = s.unicode_len();
    let mut v: Vec<char> = Vec::new();
    let mut i: usize = 0;
    while i < n
        invariant
            n == s@.len(),
            i <= n,
            v@ == s@.take(i as int),
        decreases n - i,
    {
        let c = s.get_char(i);
        v.push(c);
        i = i + 1;
        assert(v@ =~= s@.take(i as int));
    }
    assert(v@ =~= s@);
    v
}

/// A `String` holding the characters `v[from..to]`.
pub fn string_of(v: &[char], from: usize, to: usize) -> (s: String)
    requires
        from <= to <= v@.len(),
    ensures
        s@ == v@.subrange(from as int, to as int),
{
    let mut s = String::new();
    let mut i = from;
    while i < to
        invariant
            from <= i <= to <= v@.len(),
            s@ == v@.subrange(from as int, i as int),
        decreases to - i,
    {
        s.push(v[i]);
        i = i + 1;
        assert(s@ =~= v@.subrange(from as int, i as int));
    }
    s
}

/// Appends the characters of `tail` to `s`.
pub fn push_str(s: &mut String, tail: &str)
    ensures
        final(s)@ == old(s)@ + tail@,
{
    let v = chars_of(tail);
    let ghost start = s@;
    let mut i: usize = 0;
    while i < v.len()
        invariant
            i <= v@.len(),
            v@ == tail@,
            s@ == start + v@.take(i as int),
        decreases v@.len() - i,
    {
        s.push(v[i]);
        i = i + 1;
        assert(s@ =~= start + v@.take(i as int));
    }
    assert(v@.take(v@.len() as int) =~= v@);
}

/// A copy of `s` as an owned `String`.
pub fn owned(s: &str) -> (r: String)
    ensures
        r@ == s@,
{
    s.to_owned()
}

/// Character-wise equality of two strings.
pub fn str_eq(a: &str, b: &str) -> (r: bool)
    ensures
        r == (a@ == b@),
{
    let va = chars_of(a);
    let vb = chars_of(b);
    seq_eq(&va, &vb)
}

/// Element-wise equality of two character slices.
pub fn seq_eq(a: &[char], b: &[char]) -> (r: bool)
    ensures
        r == (a@ == b@),
{
    if a.len() != b.len() {
        return false;
    }
    let mut i: usize = 0;
    while i < a.len()
        invariant
            a@.len() == b@.len(),
            i <= a@.len(),
            forall|j: int| 0 <= j < i ==> a@[j] == b@[j],
        decreases a@.len() - i,
    {
        if a[i] != b[i] {
            return false;
        }
        i = i + 1;
    }
    assert(a@ =~= b@);
    true
}

/// The position of the first `c` in `v`, if any.
pub fn find_char(v: &[char], c: char) -> (r: Option<usize>)
    ensures
        match r {
            Some(i) => first_index(v@, c) == Some(i as int),
            None => first_index(v@, c) is None,
        },
        match r {
            Some(i) => is_first_index(v@, c, i as int),
            None => !has_char(v@, c),
        },
{
    let mut i: usize = 0;
    while i < v.len()
        invariant
            i <= v@.len(),
            forall|j: int| 0 <= j < i ==> v@[j] != c,
        decreases v@.len() - i,
    {
        if v[i] == c {
            proof {
                lemma_first_index(v@, c, i as int);
            }
            return Some(i);
        }
        i = i + 1;
    }
    None
}

/// A character that occurs has a first occurrence, which `first_index`
/// finds.
pub proof fn lemma_first_index_some(s: Seq<char>, c: char)
    ensures
        first_index(s, c) matches Some(i) ==> is_first_index(s, c, i),
    decreases s.len(),
{
    if has_char(s, c) {
        if s[0] == c {
            assert(is_first_index(s, c, 0));
        } else {
            let t = s.drop_first();
            let i = choose|i: int| 0 <= i < s.len() && s[i] == c;
            assert(t[i - 1] == c);
            lemma_first_index_some(t, c);
            let k = first_index(t, c)->0;
            assert forall|j: int| 0 <= j < k + 1 implies s[j] != c by {
                if j > 0 {
                    assert(s[j] == t[j - 1]);
                }
            }
            assert(is_first_index(s, c, k + 1));
        }
    }
}

/// The first index is the unique position that satisfies `is_first_index`.
pub proof fn lemma_first_index(s: Seq<char>, c: char, i: int)
    requires
        is_first_index(s, c, i),
    ensures
        first_index(s, c) == Some(i),
{
    assert(has_char(s, c));
    let k = choose|k: int| is_first_index(s, c, k);
    assert(is_first_index(s, c, k));
    if k < i {
        assert(s[k] != c);
    }
    if i < k {
        assert(s[i] != c);
    }
}

/// Whether `v[from..]` begins with `prefix`.
pub fn starts_with_at(v: &[char], from: usize, prefix: &str) -> (r: bool)
    requires
        from <= v@.len(),
    ensures
        r == starts_with(v@.skip(from as int), prefix@),
{
    let p = chars_of(prefix);
    let n = v.len();
    if p.len() > n - from {
        return false;
    }
    let mut i: usize = 0;
    while i < p.len()
        invariant
            n == v@.len(),
            from + p@.len() <= v@.len(),
            i <= p@.len(),
            p@ == prefix@,
            forall|j: int| 0 <= j < i ==> v@[from + j] == p@[j],
        decreases p@.len() - i,
    {
        if v[from + i] != p[i] {
            assert(v@.skip(from as int).take(p@.len() as int)[i as int] != p@[i as int]);
            return false;
        }
        i = i + 1;
    }
    assert(v@.skip(from as int).take(p@.len() as int) =~= p@);
    true
}

/// Whether `v[..to]` ends with `suffix`.
pub fn ends_with_at(v: &[char], to: usize, suffix: &str) -> (r: bool)
    requires
        to <= v@.len(),
    ensures
        r == ends_with(v@.take(to as int), suffix@),
{
    let p = chars_of(suffix);
    if p.len() > to {
        return false;
    }
    let start = to - p.len();
    let mut i: usize = 0;
    while i < p.len()
        invariant
            start + p@.len() == to <= v@.len(),
            i <= p@.len(),
            p@ == suffix@,
            forall|j: int| 0 <= j < i ==> v@[start + j] == p@[j],
        decreases p@.len() - i,
    {
        if v[start + i] != p[i] {
            assert(v@.take(to as int).skip(start as int)[i as int] != p@[i as int]);
            return false;
        }
        i = i + 1;
    }
    assert(v@.take(to as int).skip(start as int) =~= p@);
    true
}

} // verus!

verus! {

/// Equality of two owned strings.
pub fn string_eq(a: &String, b: &String) -> (r: bool)
    ensures
        r == (a@ == b@),
{
    a.eq(b)
}

/// The first position in `s` whose element satisfies `p`.
pub open spec fn first_where<T>(s: Seq<T>, p: spec_fn(T) -> bool) -> Option<int> {
    if exists|i: int| 0 <= i < s.len() && #[trigger] p(s[i]) {
        Some(
            choose|i: int|
                0 <= i < s.len() && #[trigger] p(s[i]) && forall|j: int| 0 <= j < i ==> !p(s[j]),
        )
    } else {
        None
    }
}

/// `i` is the first position of `s` whose element satisfies `p`.
pub open spec fn is_first_where<T>(s: Seq<T>, p: spec_fn(T) -> bool, i: int) -> bool {
    0 <= i < s.len() && p(s[i]) && forall|j: int| 0 <= j < i ==> !p(s[j])
}

/// `first_where` is the unique first match.
pub proof fn lemma_first_where<T>(s: Seq<T>, p: spec_fn(T) -> bool, i: int)
    requires
        is_first_where(s, p, i),
    ensures
        first_where(s, p) == Some(i),
{
    assert(p(s[i]));
    let k = choose|k: int|
        0 <= k < s.len() && #[trigger] p(s[k]) && forall|j: int| 0 <= j < k ==> !p(s[j]);
    assert(0 <= k < s.len() && p(s[k]) && forall|j: int| 0 <= j < k ==> !p(s[j])) by {
        lemma_first_where_exists(s, p);
    }
    if k < i {
        assert(!p(s[k]));
    }
    if i < k {
        assert(!p(s[i]));
    }
}

/// When some element satisfies `p`, a first one does.
pub proof fn lemma_first_where_exists<T>(s: Seq<T>, p: spec_fn(T) -> bool)
    requires
        exists|i: int| 0 <= i < s.len() && #[trigger] p(s[i]),
    ensures
        exists|k: int|
            0 <= k < s.len() && #[trigger] p(s[k]) && forall|j: int| 0 <= j < k ==> !p(s[j]),
    decreases s.len(),
{
    if p(s[0]) {
        assert(0 <= 0 < s.len() && p(s[0]) && forall|j: int| 0 <= j < 0 ==> !p(s[j]));
    } else {
        let i = choose|i: int| 0 <= i < s.len() && #[trigger] p(s[i]);
        let t = s.drop_first();
        assert(t[i - 1] == s[i]);
        lemma_first_where_exists(t, p);
        let k = choose|k: int|
            0 <= k < t.len() && #[trigger] p(t[k]) && forall|j: int| 0 <= j < k ==> !p(t[j]);
        assert(p(s[k + 1]));
        assert forall|j: int| 0 <= j < k + 1 implies !p(s[j]) by {
            if j > 0 {
                assert(s[j] == t[j - 1]);
            }
        }
    }
}

/// When no element satisfies `p`, there is no first match.
pub proof fn lemma_first_where_none<T>(s: Seq<T>, p: spec_fn(T) -> bool)
    requires
        forall|i: int| 0 <= i < s.len() ==> !p(#[trigger] s[i]),
    ensures
        first_where(s, p) is None,
{
}


/// Appending an element keeps the first match, or makes the new element the
/// first match when nothing matched before.
pub proof fn lemma_first_where_push<T>(s: Seq<T>, p: spec_fn(T) -> bool, x: T)
    ensures
        first_where(s.push(x), p) == match first_where(s, p) {
            Some(i) => Some(i),
            None => if p(x) {
                Some(s.len() as int)
            } else {
                None
            },
        },
{
    let t = s.push(x);
    if exists|i: int| 0 <= i < s.len() && #[trigger] p(s[i]) {
        lemma_first_where_exists(s, p);
        let k = choose|k: int|
            0 <= k < s.len() && #[trigger] p(s[k]) && forall|j: int| 0 <= j < k ==> !p(s[j]);
        lemma_first_where(s, p, k);
        assert(t[k] == s[k]);
        assert(is_first_where(t, p, k));
        lemma_first_where(t, p, k);
    } else if p(x) {
        assert(t[s.len() as int] == x);
        assert forall|j: int| 0 <= j < s.len() implies !p(t[j]) by {
            assert(t[j] == s[j]);
        }
        assert(is_first_where(t, p, s.len() as int));
        lemma_first_where(t, p, s.len() as int);
    } else {
        assert forall|j: int| 0 <= j < t.len() implies !p(#[trigger] t[j]) by {
            if j < s.len() {
                assert(t[j] == s[j]);
            }
        }
    }
}

/// Replacing an element by one that the test treats alike keeps the first
/// match.
pub proof fn lemma_first_where_update<T>(s: Seq<T>, p: spec_fn(T) -> bool, k: int, x: T)
    requires
        0 <= k < s.len(),
        p(x) == p(s[k]),
    ensures
        first_where(s.update(k, x), p) == first_where(s, p),
{
    let t = s.update(k, x);
    assert forall|j: int| 0 <= j < s.len() implies p(#[trigger] t[j]) == p(s[j]) by {}
    if exists|i: int| 0 <= i < s.len() && #[trigger] p(s[i]) {
        lemma_first_where_exists(s, p);
        let i = choose|i: int|
            0 <= i < s.len() && #[trigger] p(s[i]) && forall|j: int| 0 <= j < i ==> !p(s[j]);
        lemma_first_where(s, p, i);
        assert(p(t[i]));
        assert(is_first_where(t, p, i));
        lemma_first_where(t, p, i);
    } else {
        assert forall|j: int| 0 <= j < t.len() implies !p(#[trigger] t[j]) by {
            assert(p(t[j]) == p(s[j]));
        }
    }
}

/// Removing an element that does not match shifts the first match past it.
pub proof fn lemma_first_where_remove<T>(s: Seq<T>, p: spec_fn(T) -> bool, k: int)
    requires
        0 <= k < s.len(),
        !p(s[k]),
    ensures
        first_where(s.remove(k), p) == match first_where(s, p) {
            Some(i) => Some(
                if i < k {
                    i
                } else {
                    i - 1
                },
            ),
            None => None,
        },
{
    let t = s.remove(k);
    s.remove_ensures(k);
    if exists|i: int| 0 <= i < s.len() && #[trigger] p(s[i]) {
        lemma_first_where_exists(s, p);
        let i = choose|i: int|
            0 <= i < s.len() && #[trigger] p(s[i]) && forall|j: int| 0 <= j < i ==> !p(s[j]);
        lemma_first_where(s, p, i);
        let i2 = if i < k {
            i
        } else {
            i - 1
        };
        assert(t[i2] == s[i]);
        assert forall|j: int| 0 <= j < i2 implies !p(#[trigger] t[j]) by {
            if j < k {
                assert(t[j] == s[j]);
            } else {
                assert(t[j] == s[j + 1]);
            }
        }
        assert(is_first_where(t, p, i2));
        lemma_first_where(t, p, i2);
    } else {
        assert forall|j: int| 0 <= j < t.len() implies !p(#[trigger] t[j]) by {
            if j < k {
                assert(t[j] == s[j]);
            } else {
                assert(t[j] == s[j + 1]);
            }
        }
    }
}

/// Removing the only match leaves none.
pub proof fn lemma_first_where_remove_only<T>(s: Seq<T>, p: spec_fn(T) -> bool, k: int)
    requires
        0 <= k < s.len(),
        forall|j: int| 0 <= j < s.len() && j != k ==> !p(#[trigger] s[j]),
    ensures
        first_where(s.remove(k), p) is None,
{
    let t = s.remove(k);
    s.remove_ensures(k);
    assert forall|j: int| 0 <= j < t.len() implies !p(#[trigger] t[j]) by {
        if j < k {
            assert(t[j] == s[j]);
        } else {
            assert(t[j] == s[j + 1]);
        }
    }
}


/// A first match found by `first_where` satisfies the test, and no earlier
/// element does.
pub proof fn lemma_first_where_some<T>(s: Seq<T>, p: spec_fn(T) -> bool)
    ensures
        first_where(s, p) matches Some(i) ==> is_first_where(s, p, i),
{
    if exists|i: int| 0 <= i < s.len() && #[trigger] p(s[i]) {
        lemma_first_where_exists(s, p);
    }
}


/// Filtering keeps the keys of a sequence pairwise distinct.
pub proof fn lemma_filter_unique_keys<T, K>(s: Seq<T>, p: spec_fn(T) -> bool, key: spec_fn(T) -> K)
    requires
        forall|i: int, j: int| 0 <= i < j < s.len() ==> key(s[i]) != key(s[j]),
    ensures
        forall|i: int, j: int|
            0 <= i < j < s.filter(p).len() ==> key(s.filter(p)[i]) != key(s.filter(p)[j]),
    decreases s.len(),
{
    reveal(Seq::filter);
    if s.len() > 0 {
        let rest = s.drop_last();
        lemma_filter_unique_keys(rest, p, key);
        let f = rest.filter(p);
        if p(s.last()) {
            assert forall|i: int| 0 <= i < f.len() implies key(f[i]) != key(s.last()) by {
                assert(f.contains(f[i]));
                rest.lemma_filter_contains_rev(p, f[i]);
                let k = choose|k: int| 0 <= k < rest.len() && rest[k] == f[i];
                assert(s[k] == rest[k]);
            }
        }
    }
}

/// Every element of a filtered sequence satisfies the test and comes from
/// the sequence.
pub proof fn lemma_filter_elements<T>(s: Seq<T>, p: spec_fn(T) -> bool)
    ensures
        forall|i: int|
            0 <= i < s.filter(p).len() ==> p(#[trigger] s.filter(p)[i]) && s.contains(
                s.filter(p)[i],
            ),
        forall|i: int| 0 <= i < s.len() && p(#[trigger] s[i]) ==> s.filter(p).contains(s[i]),
        s.filter(p).len() <= s.len(),
{
    broadcast use vstd::seq_lib::group_filter_ensures;

    assert forall|i: int| 0 <= i < s.filter(p).len() implies p(#[trigger] s.filter(p)[i])
        && s.contains(s.filter(p)[i]) by {
        assert(s.filter(p).contains(s.filter(p)[i]));
        s.lemma_filter_contains_rev(p, s.filter(p)[i]);
    }
}

/// Filtering a prefix one element longer adds that element when it passes.
pub proof fn lemma_filter_take_step<T>(s: Seq<T>, p: spec_fn(T) -> bool, i: int)
    requires
        0 <= i < s.len(),
    ensures
        s.take(i + 1).filter(p) == if p(s[i]) {
            s.take(i).filter(p).push(s[i])
        } else {
            s.take(i).filter(p)
        },
{
    assert(s.take(i + 1) =~= s.take(i).push(s[i]));
    s.take(i).lemma_filter_push(s[i], p);
}


/// Two sequences that the test treats alike, position by position, have the
/// same first match.
pub proof fn lemma_first_where_same<T>(s1: Seq<T>, s2: Seq<T>, p: spec_fn(T) -> bool)
    requires
        s1.len() == s2.len(),
        forall|i: int| 0 <= i < s1.len() ==> p(#[trigger] s1[i]) == p(s2[i]),
    ensures
        first_where(s1, p) == first_where(s2, p),
{
    lemma_first_where_some(s1, p);
    match first_where(s1, p) {
        Some(i) => {
            assert(p(s2[i]));
            assert forall|j: int| 0 <= j < i implies !p(s2[j]) by {
                assert(p(s1[j]) == p(s2[j]));
            }
            lemma_first_where(s2, p, i);
        },
        None => {
            assert forall|j: int| 0 <= j < s2.len() implies !p(#[trigger] s2[j]) by {
                assert(!p(s1[j]));
            }
        },
    }
}


/// `s` without `prefix`, when `s` begins with it.
pub fn strip_prefix_str(s: &str, prefix: &str) -> (r: Option<String>)
    ensures
        match r {
            Some(t) => strip_prefix(s@, prefix@) == Some(t@),
            None => strip_prefix(s@, prefix@) is None,
        },
{
    let v = chars_of(s);
    assert(v@.skip(0) =~= v@);
    if starts_with_at(v.as_slice(), 0, prefix) {
        let n = prefix.unicode_len();
        let t = string_of(v.as_slice(), n, v.len());
        assert(t@ =~= s@.skip(prefix@.len() as int));
        Some(t)
    } else {
        None
    }
}

/// `s` without `suffix`, when `s` ends with it.
pub fn strip_suffix_str(s: &str, suffix: &str) -> (r: Option<String>)
    ensures
        match r {
            Some(t) => strip_suffix(s@, suffix@) == Some(t@),
            None => strip_suffix(s@, suffix@) is None,
        },
{
    let v = chars_of(s);
    assert(v@.take(v@.len() as int) =~= v@);
    if ends_with_at(v.as_slice(), v.len(), suffix) {
        let n = suffix.unicode_len();
        let t = string_of(v.as_slice(), 0, v.len() - n);
        assert(t@ =~= s@.take(s@.len() - suffix@.len()));
        Some(t)
    } else {
        None
    }
}

/// `s` split around its first `c`.
pub fn split_once_str(s: &str, c: char) -> (r: Option<(String, String)>)
    ensures
        match r {
            Some((a, b)) => split_once(s@, c) == Some((a@, b@)),
            None => split_once(s@, c) is None,
        },
{
    let v = chars_of(s);
    match find_char(v.as_slice(), c) {
        Some(i) => {
            let len = v.len();
            assert(i < len);
            let a = string_of(v.as_slice(), 0, i);
            let b = string_of(v.as_slice(), i + 1, len);
            assert(a@ =~= s@.take(i as int));
            assert(b@ =~= s@.skip(i + 1));
            Some((a, b))
        },
        None => None,
    }
}

/// Whether `needle` occurs in `s` as a contiguous run.
pub fn contains_str(s: &str, needle: &str) -> (r: bool)
    ensures
        r == contains_seq(s@, needle@),
{
    let v = chars_of(s);
    let n = needle.unicode_len();
    if n > v.len() {
        assert forall|i: int| 0 <= i <= s@.len() - needle@.len() implies #[trigger] s@.subrange(i, i + needle@.len()) != needle@ by {}
        return false;
    }
    let last = v.len() - n;
    let mut i: usize = 0;
    while i <= last
        invariant
            n == needle@.len(),
            n <= v@.len(),
            last == v@.len() - n,
            v@ == s@,
            i <= last + 1,
            forall|j: int| 0 <= j < i ==> #[trigger] s@.subrange(j, j + n) != needle@,
        decreases last + 1 - i,
    {
        assert(v@.skip(i as int) =~= v@.skip(i as int));
        if starts_with_at(v.as_slice(), i, needle) {
            assert(s@.subrange(i as int, i + n) =~= v@.skip(i as int).take(n as int));
            return true;
        }
        assert(s@.subrange(i as int, i + n) =~= v@.skip(i as int).take(n as int));
        if i == last {
            return false;
        }
        i = i + 1;
    }
    false
}

/// `c` with ASCII upper-case letters made lower-case.
pub open spec fn ascii_lower(c: char) -> char {
    if 'A' <= c <= 'Z' {
        ((c as u32) + 32) as char
    } else {
        c
    }
}

/// `a` and `b` are equal when ASCII letters are compared without case.
pub open spec fn eq_ignore_ascii_case(a: Seq<char>, b: Seq<char>) -> bool {
    a.len() == b.len() && forall|i: int| 0 <= i < a.len() ==> ascii_lower(#[trigger] a[i]) == ascii_lower(b[i])
}

fn lower_char(c: char) -> (r: char)
    ensures
        r == ascii_lower(c),
{
    if 'A' <= c && c <= 'Z' {
        ((c as u8) + 32) as char
    } else {
        c
    }
}

/// Whether `v[from..to]` equals `b` when ASCII letters are compared
/// without case.
pub fn eq_ignore_ascii_case_at(v: &[char], from: usize, to: usize, b: &str) -> (r: bool)
    requires
        from <= to <= v@.len(),
    ensures
        r == eq_ignore_ascii_case(v@.subrange(from as int, to as int), b@),
{
    let w = chars_of(b);
    if to - from != w.len() {
        return false;
    }
    let mut i: usize = 0;
    while i < w.len()
        invariant
            to - from == w@.len(),
            from <= to <= v@.len(),
            w@ == b@,
            i <= w@.len(),
            forall|j: int| 0 <= j < i ==> ascii_lower(v@[from + j]) == ascii_lower(w@[j]),
        decreases w@.len() - i,
    {
        if lower_char(v[from + i]) != lower_char(w[i]) {
            assert(ascii_lower(v@.subrange(from as int, to as int)[i as int]) != ascii_lower(b@[i as int]));
            return false;
        }
        i = i + 1;
    }
    true
}
} // verus!
