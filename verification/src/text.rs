//! Substring and character search over character sequences, plus the two
//! conversions between `String` and `Vec<char>` that the rest of the
//! library builds on.

use vstd::prelude::*;

verus! {

/// The pattern `pat` occurs in `hay` starting at position `i`.
pub open spec fn match_at(hay: Seq<char>, pat: Seq<char>, i: int) -> bool {
    0 <= i && i + pat.len() <= hay.len() && hay.subrange(i, i + pat.len() as int) == pat
}

/// The pattern `pat` occurs somewhere in `hay`.
pub open spec fn has_match(hay: Seq<char>, pat: Seq<char>) -> bool {
    exists|i: int| match_at(hay, pat, i)
}

/// Whether `pat` occurs in `hay` at position `i`.
fn check_at(hay: &Vec<char>, pat: &Vec<char>, i: usize) -> (r: bool)
    requires
        i + pat@.len() <= hay@.len(),
    ensures
        r == match_at(hay@, pat@, i as int),
{
    let ghost sub = hay@.subrange(i as int, i as int + pat@.len() as int);
    let n = hay.len();
    let mut j: usize = 0;
    while j < pat.len()
        invariant
            i + pat@.len() <= hay@.len(),
            n == hay@.len(),
            j <= pat@.len(),
            sub == hay@.subrange(i as int, i as int + pat@.len() as int),
            forall|k: int| 0 <= k < j ==> hay@[i + k] == pat@[k],
        decreases pat@.len() - j,
    {
        if hay[i + j] != pat[j] {
            assert(sub[j as int] != pat@[j as int]);
            return false;
        }
        j += 1;
    }
    assert(sub =~= pat@);
    true
}

/// Position of the first occurrence of `pat` in `hay`, if any.
pub fn find_sub(hay: &Vec<char>, pat: &Vec<char>) -> (r: Option<usize>)
    ensures
        match r {
            Some(i) => match_at(hay@, pat@, i as int) && forall|j: int|
                0 <= j < i ==> !match_at(hay@, pat@, j),
            None => !has_match(hay@, pat@),
        },
{
    if pat.len() > hay.len() {
        return None;
    }
    if pat.len() == 0 {
        assert(hay@.subrange(0, 0) =~= pat@);
        return Some(0);
    }
    let last: usize = hay.len() - pat.len();
    let mut i: usize = 0;
    while i <= last
        invariant
            0 < pat@.len() <= hay@.len(),
            hay@.len() <= usize::MAX,
            last == hay@.len() - pat@.len(),
            i <= last + 1,
            forall|j: int| 0 <= j < i ==> !match_at(hay@, pat@, j),
        decreases last + 1 - i,
    {
        if check_at(hay, pat, i) {
            return Some(i);
        }
        i += 1;
    }
    None
}

/// Whether `pat` occurs anywhere in `hay`.
pub fn contains_sub(hay: &Vec<char>, pat: &Vec<char>) -> (r: bool)
    ensures
        r == has_match(hay@, pat@),
{
    find_sub(hay, pat).is_some()
}

/// Position of the first occurrence of the character `c` in `hay`, if any.
pub fn find_char(hay: &Vec<char>, c: char) -> (r: Option<usize>)
    ensures
        match r {
            Some(i) => i < hay@.len() && hay@[i as int] == c && forall|j: int|
                0 <= j < i ==> hay@[j] != c,
            None => forall|j: int| 0 <= j < hay@.len() ==> hay@[j] != c,
        },
{
    let mut i: usize = 0;
    while i < hay.len()
        invariant
            i <= hay@.len(),
            forall|j: int| 0 <= j < i ==> hay@[j] != c,
        decreases hay@.len() - i,
    {
        if hay[i] == c {
            return Some(i);
        }
        i += 1;
    }
    None
}

/// Position of the last occurrence of the character `c` in `hay`, if any.
pub fn rfind_char(hay: &Vec<char>, c: char) -> (r: Option<usize>)
    ensures
        match r {
            Some(i) => i < hay@.len() && hay@[i as int] == c && forall|j: int|
                i < j < hay@.len() ==> hay@[j] != c,
            None => forall|j: int| 0 <= j < hay@.len() ==> hay@[j] != c,
        },
{
    let mut i: usize = hay.len();
    while i > 0
        invariant
            i <= hay@.len(),
            forall|j: int| i <= j < hay@.len() ==> hay@[j] != c,
        decreases i,
    {
        i -= 1;
        if hay[i] == c {
            return Some(i);
        }
    }
    None
}

/// `pat` is a prefix of `hay`.
pub open spec fn is_prefix(hay: Seq<char>, pat: Seq<char>) -> bool {
    pat.len() <= hay.len() && hay.subrange(0, pat.len() as int) == pat
}

/// Whether `hay` starts with `pat`.
pub fn starts_with_sub(hay: &Vec<char>, pat: &Vec<char>) -> (r: bool)
    ensures
        r == is_prefix(hay@, pat@),
{
    if pat.len() > hay.len() {
        return false;
    }
    check_at(hay, pat, 0)
}

/// The characters of `hay` from `from` (inclusive) to `to` (exclusive).
pub fn slice_range(hay: &Vec<char>, from: usize, to: usize) -> (r: Vec<char>)
    requires
        from <= to <= hay@.len(),
    ensures
        r@ == hay@.subrange(from as int, to as int),
{
    let mut r: Vec<char> = Vec::new();
    let mut i: usize = from;
    while i < to
        invariant
            from <= i <= to <= hay@.len(),
            r@ == hay@.subrange(from as int, i as int),
        decreases to - i,
    {
        r.push(hay[i]);
        assert(r@ =~= hay@.subrange(from as int, i + 1));
        i += 1;
    }
    r
}

/// The position of the first occurrence of `pat` in `hay`, if any.
pub open spec fn find_spec(hay: Seq<char>, pat: Seq<char>) -> Option<int> {
    if has_match(hay, pat) {
        Some(choose|i: int| match_at(hay, pat, i) && forall|j: int| 0 <= j < i ==> !match_at(hay, pat, j))
    } else {
        None
    }
}

/// A first match at `i` makes `i` the value of `find_spec`.
pub proof fn lemma_find_spec_at(hay: Seq<char>, pat: Seq<char>, i: int)
    requires
        match_at(hay, pat, i),
        forall|j: int| 0 <= j < i ==> !match_at(hay, pat, j),
    ensures
        find_spec(hay, pat) == Some(i),
{
    assert(has_match(hay, pat));
    let w = choose|w: int| match_at(hay, pat, w) && forall|j: int| 0 <= j < w ==> !match_at(hay, pat, j);
    if w < i {
        assert(!match_at(hay, pat, w));
    } else if w > i {
        assert(!match_at(hay, pat, i));
    }
}

/// The position of the first occurrence of the character `c`, if any.
pub open spec fn find_char_spec(hay: Seq<char>, c: char) -> Option<int> {
    if hay.contains(c) {
        Some(choose|i: int| 0 <= i < hay.len() && hay[i] == c && forall|j: int| 0 <= j < i ==> hay[j] != c)
    } else {
        None
    }
}

/// A first occurrence at `i` makes `i` the value of `find_char_spec`.
pub proof fn lemma_find_char_spec_at(hay: Seq<char>, c: char, i: int)
    requires
        0 <= i < hay.len(),
        hay[i] == c,
        forall|j: int| 0 <= j < i ==> hay[j] != c,
    ensures
        find_char_spec(hay, c) == Some(i),
{
    assert(hay.contains(c));
    let w = choose|w: int| 0 <= w < hay.len() && hay[w] == c && forall|j: int| 0 <= j < w ==> hay[j] != c;
    if w < i {
        assert(hay[w] != c);
    } else if w > i {
        assert(hay[i] != c);
    }
}

/// Nowhere an occurrence means `find_char_spec` is `None`.
pub proof fn lemma_find_char_spec_none(hay: Seq<char>, c: char)
    requires
        forall|j: int| 0 <= j < hay.len() ==> hay[j] != c,
    ensures
        find_char_spec(hay, c) is None,
{
    if hay.contains(c) {
        let w = choose|w: int| 0 <= w < hay.len() && hay[w] == c;
        assert(hay[w] != c);
    }
}

/// The position of the last occurrence of the character `c`, if any.
pub open spec fn rfind_char_spec(hay: Seq<char>, c: char) -> Option<int> {
    if hay.contains(c) {
        Some(choose|i: int| 0 <= i < hay.len() && hay[i] == c && forall|j: int| i < j < hay.len() ==> hay[j] != c)
    } else {
        None
    }
}

/// A last occurrence at `i` makes `i` the value of `rfind_char_spec`.
pub proof fn lemma_rfind_char_spec_at(hay: Seq<char>, c: char, i: int)
    requires
        0 <= i < hay.len(),
        hay[i] == c,
        forall|j: int| i < j < hay.len() ==> hay[j] != c,
    ensures
        rfind_char_spec(hay, c) == Some(i),
{
    assert(hay.contains(c));
    let w = choose|w: int| 0 <= w < hay.len() && hay[w] == c && forall|j: int| w < j < hay.len() ==> hay[j] != c;
    if w < i {
        assert(hay[i] != c);
    } else if w > i {
        assert(hay[w] != c);
    }
}

/// `pat` is a suffix of `hay`.
pub open spec fn is_suffix(hay: Seq<char>, pat: Seq<char>) -> bool {
    pat.len() <= hay.len() && hay.subrange(hay.len() - pat.len(), hay.len() as int) == pat
}

/// Whether `hay` ends with `pat`.
pub fn ends_with_sub(hay: &Vec<char>, pat: &Vec<char>) -> (r: bool)
    ensures
        r == is_suffix(hay@, pat@),
{
    if pat.len() > hay.len() {
        return false;
    }
    check_at(hay, pat, hay.len() - pat.len())
}

/// Whether two character vectors hold the same characters.
pub fn chars_eq(a: &Vec<char>, b: &Vec<char>) -> (r: bool)
    ensures
        r == (a@ == b@),
{
    if a.len() != b.len() {
        proof {
            assert(a@ != b@);
        }
        return false;
    }
    let mut i: usize = 0;
    while i < a.len()
        invariant
            i <= a@.len(),
            a@.len() == b@.len(),
            forall|j: int| 0 <= j < i ==> a@[j] == b@[j],
        decreases a@.len() - i,
    {
        if a[i] != b[i] {
            proof {
                assert(a@[i as int] != b@[i as int]);
            }
            return false;
        }
        i += 1;
    }
    proof {
        assert(a@ =~= b@);
    }
    true
}

/// Relies on `str::chars` and `Iterator::collect`: the character iterator of
/// a string yields exactly the characters of its view, in order.
#[verifier::external_body]
pub fn str_to_chars(s: &str) -> (r: Vec<char>)
    ensures
        r@ == s@,
{
    s.chars().collect()
}

/// Relies on `String`'s `FromIterator<char>`: collecting characters builds
/// the string of exactly those characters, in order.
#[verifier::external_body]
pub fn chars_to_string(v: &Vec<char>) -> (r: String)
    ensures
        r@ == v@,
{
    v.iter().collect()
}

} // verus!
