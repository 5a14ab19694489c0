//! Filename sanitizing for the download supervisor's output paths.
//!
//! A channel or group name is cleaned before it becomes a directory name:
//! characters that are unsafe in file names and control characters are
//! removed, runs of `..` are collapsed, leading and trailing whitespace and
//! dots are trimmed, and an empty result is replaced by a fixed placeholder.

use vstd::prelude::*;

verus! {

/// Characters that are removed outright: the cross-platform unsafe set
/// plus backtick and dollar, which shells treat specially.
pub open spec fn is_banned_char(c: char) -> bool {
    c == '<' || c == '>' || c == ':' || c == '"' || c == '/' || c == '\\' || c == '|' || c == '?'
        || c == '*' || c == '`' || c == '$'
}

/// Control characters (the C0 and C1 ranges, together with delete).
pub open spec fn is_control_char(c: char) -> bool {
    (c as u32) < 0x20 || (0x7f <= (c as u32) && (c as u32) <= 0x9f)
}

/// A character that survives the removal pass.
pub open spec fn keeps_char(c: char) -> bool {
    !is_banned_char(c) && !is_control_char(c)
}

/// The characters of `s` with banned and control characters removed.
pub open spec fn kept_chars(s: Seq<char>) -> Seq<char> {
    s.filter(|c: char| keeps_char(c))
}

/// Left-to-right removal of `..` pairs, as an iterated textual
/// replacement of `..` by nothing converges to.
pub open spec fn strip_dot_pairs(s: Seq<char>) -> Seq<char>
    decreases s.len(),
{
    if s.len() == 0 {
        Seq::empty()
    } else if s.len() >= 2 && s[0] == '.' && s[1] == '.' {
        strip_dot_pairs(s.skip(2))
    } else {
        seq![s[0]] + strip_dot_pairs(s.skip(1))
    }
}

/// Unicode whitespace, the set that string trimming removes.
pub open spec fn is_trim_space(c: char) -> bool {
    let u = c as u32;
    (0x09 <= u && u <= 0x0d) || u == 0x20 || u == 0x85 || u == 0xa0 || u == 0x1680 || (0x2000 <= u
        && u <= 0x200a) || u == 0x2028 || u == 0x2029 || u == 0x202f || u == 0x205f || u == 0x3000
}

/// `s` without its leading characters that satisfy `pred`.
pub open spec fn trim_leading(s: Seq<char>, pred: spec_fn(char) -> bool) -> Seq<char>
    decreases s.len(),
{
    if s.len() > 0 && pred(s[0]) {
        trim_leading(s.skip(1), pred)
    } else {
        s
    }
}

/// `s` without its trailing characters that satisfy `pred`.
pub open spec fn trim_trailing(s: Seq<char>, pred: spec_fn(char) -> bool) -> Seq<char>
    decreases s.len(),
{
    if s.len() > 0 && pred(s[s.len() - 1]) {
        trim_trailing(s.take(s.len() - 1), pred)
    } else {
        s
    }
}

/// `s` with both ends trimmed by `pred`.
pub open spec fn trim_both(s: Seq<char>, pred: spec_fn(char) -> bool) -> Seq<char> {
    trim_trailing(trim_leading(s, pred), pred)
}

/// The whitespace predicate as a value, for trimming.
pub open spec fn space_pred() -> spec_fn(char) -> bool {
    |c: char| is_trim_space(c)
}

/// The dot predicate as a value, for trimming.
pub open spec fn dot_pred() -> spec_fn(char) -> bool {
    |c: char| c == '.'
}

/// The name substituted when sanitizing leaves nothing.
pub open spec fn placeholder_name() -> Seq<char> {
    seq!['d', 'o', 'w', 'n', 'l', 'o', 'a', 'd', 'e', 'd', '_', 'f', 'i', 'l', 'e']
}

/// The whole sanitizing pipeline: remove unsafe and control characters,
/// collapse `..` runs, trim whitespace and then dots from both ends, and
/// fall back to the placeholder when nothing remains.
pub open spec fn spec_sanitize(s: Seq<char>) -> Seq<char> {
    let cleaned = trim_both(trim_both(strip_dot_pairs(kept_chars(s)), space_pred()), dot_pred());
    if cleaned.len() == 0 {
        placeholder_name()
    } else {
        cleaned
    }
}

/// Whether `c` survives the removal pass.
fn keep_char(c: char) -> (r: bool)
    ensures
        r == keeps_char(c),
{
    let u = c as u32;
    if u < 0x20 || (0x7f <= u && u <= 0x9f) {
        return false;
    }
    !(c == '<' || c == '>' || c == ':' || c == '"' || c == '/' || c == '\\' || c == '|' || c == '?'
        || c == '*' || c == '`' || c == '$')
}

/// Whether trimming treats `c` as whitespace.
pub(crate) fn trim_space_char(c: char) -> (r: bool)
    ensures
        r == is_trim_space(c),
{
    let u = c as u32;
    (0x09 <= u && u <= 0x0d) || u == 0x20 || u == 0x85 || u == 0xa0 || u == 0x1680 || (0x2000 <= u
        && u <= 0x200a) || u == 0x2028 || u == 0x2029 || u == 0x202f || u == 0x205f || u == 0x3000
}

/// The characters of `v` with banned and control characters removed.
fn remove_bad_chars(v: &Vec<char>) -> (r: Vec<char>)
    ensures
        r@ == kept_chars(v@),
{
    let mut r: Vec<char> = Vec::new();
    let mut i: usize = 0;
    while i < v.len()
        invariant
            i <= v@.len(),
            r@ == kept_chars(v@.take(i as int)),
        decreases v@.len() - i,
    {
        let c = v[i];
        proof {
            let pred = |c: char| keeps_char(c);
            assert(v@.take(i + 1) =~= v@.take(i as int) + seq![v@[i as int]]);
            Seq::<char>::filter_distributes_over_add(v@.take(i as int), seq![v@[i as int]], pred);
            reveal_with_fuel(Seq::filter, 2);
            assert(seq![v@[i as int]].drop_last() =~= Seq::<char>::empty());
        }
        if keep_char(c) {
            r.push(c);
        }
        i += 1;
    }
    assert(v@.take(v@.len() as int) =~= v@);
    r
}

/// The characters of `v` with `..` pairs removed, left to right.
fn strip_dot_pairs_exec(v: &Vec<char>) -> (r: Vec<char>)
    ensures
        r@ == strip_dot_pairs(v@),
{
    let mut r: Vec<char> = Vec::new();
    let mut i: usize = 0;
    proof {
        assert(v@.skip(0) =~= v@);
        assert(r@ + strip_dot_pairs(v@) =~= strip_dot_pairs(v@));
    }
    while i < v.len()
        invariant
            i <= v@.len(),
            strip_dot_pairs(v@) == r@ + strip_dot_pairs(v@.skip(i as int)),
        decreases v@.len() - i,
    {
        if i + 1 < v.len() && v[i] == '.' && v[i + 1] == '.' {
            proof {
                assert(v@.skip(i as int).skip(2) =~= v@.skip(i + 2));
            }
            i += 2;
        } else {
            proof {
                assert(v@.skip(i as int)[0] == v@[i as int]);
                assert(v@.skip(i as int).skip(1) =~= v@.skip(i + 1));
                assert(strip_dot_pairs(v@.skip(i as int)) == seq![v@[i as int]] + strip_dot_pairs(
                    v@.skip(i + 1),
                ));
            }
            let ghost r_before = r@;
            r.push(v[i]);
            proof {
                assert(r@ + strip_dot_pairs(v@.skip(i + 1)) =~= r_before + (seq![v@[i as int]]
                    + strip_dot_pairs(v@.skip(i + 1))));
            }
            i += 1;
        }
    }
    proof {
        assert(v@.skip(v@.len() as int) =~= Seq::<char>::empty());
        assert(r@ + Seq::<char>::empty() =~= r@);
    }
    r
}

/// If the first `k` characters of `s` satisfy `pred` and the next one does
/// not, trimming from the left drops exactly those `k` characters.
pub(crate) proof fn lemma_trim_leading_skip(s: Seq<char>, pred: spec_fn(char) -> bool, k: int)
    requires
        0 <= k <= s.len(),
        forall|j: int| 0 <= j < k ==> pred(s[j]),
        k < s.len() ==> !pred(s[k]),
    ensures
        trim_leading(s, pred) == s.skip(k),
    decreases k,
{
    if k == 0 {
        assert(s.skip(0) =~= s);
    } else {
        assert(pred(s[0]));
        lemma_trim_leading_skip(s.skip(1), pred, k - 1);
        assert(s.skip(1).skip(k - 1) =~= s.skip(k));
    }
}

/// If the last characters of `s` from position `k` on satisfy `pred` and
/// the one before them does not, trimming from the right keeps exactly the
/// first `k` characters.
pub(crate) proof fn lemma_trim_trailing_take(s: Seq<char>, pred: spec_fn(char) -> bool, k: int)
    requires
        0 <= k <= s.len(),
        forall|j: int| k <= j < s.len() ==> pred(s[j]),
        k > 0 ==> !pred(s[k - 1]),
    ensures
        trim_trailing(s, pred) == s.take(k),
    decreases s.len() - k,
{
    if k == s.len() {
        assert(s.take(k) =~= s);
    } else {
        assert(pred(s[s.len() - 1]));
        lemma_trim_trailing_take(s.take(s.len() - 1), pred, k);
        assert(s.take(s.len() - 1).take(k) =~= s.take(k));
    }
}

/// Whether trimming in mode `spaces` removes `c`.
fn trimmed_char(c: char, spaces: bool) -> (r: bool)
    ensures
        spaces ==> r == is_trim_space(c),
        !spaces ==> r == (c == '.'),
{
    if spaces {
        trim_space_char(c)
    } else {
        c == '.'
    }
}

/// `v` with both ends trimmed: whitespace when `spaces` is true, dots
/// otherwise.
pub(crate) fn trim_ends(v: &Vec<char>, spaces: bool) -> (r: Vec<char>)
    ensures
        spaces ==> r@ == trim_both(v@, space_pred()),
        !spaces ==> r@ == trim_both(v@, dot_pred()),
{
    let ghost pred = if spaces {
        space_pred()
    } else {
        dot_pred()
    };
    let mut start: usize = 0;
    while start < v.len() && trimmed_char(v[start], spaces)
        invariant
            start <= v@.len(),
            spaces ==> pred == space_pred(),
            !spaces ==> pred == dot_pred(),
            forall|j: int| 0 <= j < start ==> pred(v@[j]),
        decreases v@.len() - start,
    {
        start += 1;
    }
    proof {
        lemma_trim_leading_skip(v@, pred, start as int);
    }
    let ghost mid = v@.skip(start as int);
    let mut end: usize = v.len();
    while end > start && trimmed_char(v[end - 1], spaces)
        invariant
            start <= end <= v@.len(),
            spaces ==> pred == space_pred(),
            !spaces ==> pred == dot_pred(),
            mid == v@.skip(start as int),
            forall|j: int| end <= j < v@.len() ==> pred(v@[j]),
        decreases end,
    {
        end -= 1;
    }
    proof {
        assert(forall|j: int| #![auto] end - start <= j < mid.len() ==> mid[j] == v@[j + start]);
        lemma_trim_trailing_take(mid, pred, end - start);
    }
    let r = crate::text::slice_range(v, start, end);
    proof {
        assert(mid.take(end - start) =~= v@.subrange(start as int, end as int));
    }
    r
}

/// Removing dot pairs keeps every character property: the result's
/// characters are drawn from the input.
proof fn lemma_strip_preserves(p: Seq<char>, pred: spec_fn(char) -> bool)
    requires
        forall|j: int| 0 <= j < p.len() ==> pred(#[trigger] p[j]),
    ensures
        forall|j: int|
            0 <= j < strip_dot_pairs(p).len() ==> pred(#[trigger] strip_dot_pairs(p)[j]),
    decreases p.len(),
{
    if p.len() == 0 {
    } else if p.len() >= 2 && p[0] == '.' && p[1] == '.' {
        assert(forall|j: int| 0 <= j < p.skip(2).len() ==> #[trigger] p.skip(2)[j] == p[j + 2]);
        lemma_strip_preserves(p.skip(2), pred);
        assert forall|j: int| 0 <= j < strip_dot_pairs(p).len() implies pred(
            #[trigger] strip_dot_pairs(p)[j],
        ) by {
            assert(pred(strip_dot_pairs(p.skip(2))[j]));
        }
    } else {
        assert(forall|j: int| 0 <= j < p.skip(1).len() ==> #[trigger] p.skip(1)[j] == p[j + 1]);
        lemma_strip_preserves(p.skip(1), pred);
        assert forall|j: int| 0 <= j < strip_dot_pairs(p).len() implies pred(
            #[trigger] strip_dot_pairs(p)[j],
        ) by {
            if j == 0 {
                assert(strip_dot_pairs(p)[0] == p[0]);
                assert(pred(p[0]));
            } else {
                assert(strip_dot_pairs(p)[j] == strip_dot_pairs(p.skip(1))[j - 1]);
                assert(pred(strip_dot_pairs(p.skip(1))[j - 1]));
            }
        }
    }
}

/// Trimming an end keeps every character property.
proof fn lemma_trim_leading_preserves(p: Seq<char>, t: spec_fn(char) -> bool, pred: spec_fn(
    char,
) -> bool)
    requires
        forall|j: int| 0 <= j < p.len() ==> pred(#[trigger] p[j]),
    ensures
        forall|j: int|
            0 <= j < trim_leading(p, t).len() ==> pred(#[trigger] trim_leading(p, t)[j]),
    decreases p.len(),
{
    if p.len() > 0 && t(p[0]) {
        assert(forall|j: int| 0 <= j < p.skip(1).len() ==> #[trigger] p.skip(1)[j] == p[j + 1]);
        lemma_trim_leading_preserves(p.skip(1), t, pred);
        assert forall|j: int| 0 <= j < trim_leading(p, t).len() implies pred(
            #[trigger] trim_leading(p, t)[j],
        ) by {
            assert(pred(trim_leading(p.skip(1), t)[j]));
        }
    } else {
        assert forall|j: int| 0 <= j < trim_leading(p, t).len() implies pred(
            #[trigger] trim_leading(p, t)[j],
        ) by {
            assert(pred(p[j]));
        }
    }
}

/// Trimming the other end keeps every character property.
proof fn lemma_trim_trailing_preserves(p: Seq<char>, t: spec_fn(char) -> bool, pred: spec_fn(
    char,
) -> bool)
    requires
        forall|j: int| 0 <= j < p.len() ==> pred(#[trigger] p[j]),
    ensures
        forall|j: int|
            0 <= j < trim_trailing(p, t).len() ==> pred(#[trigger] trim_trailing(p, t)[j]),
    decreases p.len(),
{
    if p.len() > 0 && t(p[p.len() - 1]) {
        assert(forall|j: int|
            0 <= j < p.take(p.len() - 1).len() ==> #[trigger] p.take(p.len() - 1)[j] == p[j]);
        lemma_trim_trailing_preserves(p.take(p.len() - 1), t, pred);
        assert forall|j: int| 0 <= j < trim_trailing(p, t).len() implies pred(
            #[trigger] trim_trailing(p, t)[j],
        ) by {
            assert(pred(trim_trailing(p.take(p.len() - 1), t)[j]));
        }
    } else {
        assert forall|j: int| 0 <= j < trim_trailing(p, t).len() implies pred(
            #[trigger] trim_trailing(p, t)[j],
        ) by {
            assert(pred(p[j]));
        }
    }
}

/// A sanitized name never holds an unsafe or control character, whatever
/// the input was: every character of `spec_sanitize(s)` survives the
/// removal pass or belongs to the fixed placeholder.
pub proof fn lemma_sanitize_no_banned(s: Seq<char>, j: int)
    requires
        0 <= j < spec_sanitize(s).len(),
    ensures
        !is_banned_char(spec_sanitize(s)[j]),
        !is_control_char(spec_sanitize(s)[j]),
{
    let pred = |c: char| keeps_char(c);
    let kept = kept_chars(s);
    assert forall|i: int| 0 <= i < kept.len() implies pred(#[trigger] kept[i]) by {
        s.lemma_filter_pred(pred, i);
    }
    let stripped = strip_dot_pairs(kept);
    lemma_strip_preserves(kept, pred);
    let ws_trimmed = trim_both(stripped, space_pred());
    lemma_trim_leading_preserves(stripped, space_pred(), pred);
    lemma_trim_trailing_preserves(trim_leading(stripped, space_pred()), space_pred(), pred);
    let cleaned = trim_both(ws_trimmed, dot_pred());
    lemma_trim_leading_preserves(ws_trimmed, dot_pred(), pred);
    lemma_trim_trailing_preserves(trim_leading(ws_trimmed, dot_pred()), dot_pred(), pred);
    if cleaned.len() == 0 {
        assert(keeps_char(placeholder_name()[j]));
    } else {
        assert(pred(cleaned[j]));
    }
}

/// No two adjacent characters of `t` are both dots.
pub open spec fn no_dot_pair(t: Seq<char>) -> bool {
    forall|j: int| 0 <= j && j + 1 < t.len() ==> !(#[trigger] t[j] == '.' && t[j + 1] == '.')
}

/// Removing dot pairs leaves no adjacent pair of dots behind.
proof fn lemma_strip_no_dot_pair(p: Seq<char>)
    ensures
        no_dot_pair(strip_dot_pairs(p)),
    decreases p.len(),
{
    if p.len() == 0 {
    } else if p.len() >= 2 && p[0] == '.' && p[1] == '.' {
        lemma_strip_no_dot_pair(p.skip(2));
    } else {
        lemma_strip_no_dot_pair(p.skip(1));
        let rest = strip_dot_pairs(p.skip(1));
        let out = strip_dot_pairs(p);
        assert(forall|j: int| 0 <= j < rest.len() ==> #[trigger] out[j + 1] == rest[j]);
        assert forall|j: int| 0 <= j && j + 1 < out.len() implies !(#[trigger] out[j] == '.'
            && out[j + 1] == '.') by {
            if j == 0 && p[0] == '.' {
                // The next kept character cannot be a dot: either the
                // input had none after this one, or the very next input
                // character opens the removed run and this branch would
                // not have kept the first dot.
                assert(p.len() >= 2 ==> p[1] != '.');
                assert(p.skip(1).len() > 0);
                assert(p.skip(1)[0] == p[1]);
                assert(rest[0] == p[1]);
            }
        }
    }
}

/// Trimming from the left cannot create an adjacent pair of dots.
proof fn lemma_trim_leading_no_dot_pair(p: Seq<char>, t: spec_fn(char) -> bool)
    requires
        no_dot_pair(p),
    ensures
        no_dot_pair(trim_leading(p, t)),
    decreases p.len(),
{
    if p.len() > 0 && t(p[0]) {
        assert(forall|j: int| 0 <= j < p.skip(1).len() ==> #[trigger] p.skip(1)[j] == p[j + 1]);
        lemma_trim_leading_no_dot_pair(p.skip(1), t);
    }
}

/// Trimming from the right cannot create an adjacent pair of dots.
proof fn lemma_trim_trailing_no_dot_pair(p: Seq<char>, t: spec_fn(char) -> bool)
    requires
        no_dot_pair(p),
    ensures
        no_dot_pair(trim_trailing(p, t)),
    decreases p.len(),
{
    if p.len() > 0 && t(p[p.len() - 1]) {
        assert(forall|j: int|
            0 <= j < p.take(p.len() - 1).len() ==> #[trigger] p.take(p.len() - 1)[j] == p[j]);
        lemma_trim_trailing_no_dot_pair(p.take(p.len() - 1), t);
    }
}

/// A sanitized name never holds two adjacent dots, so it can never name
/// a parent directory.
pub proof fn lemma_sanitize_no_dot_dot(s: Seq<char>)
    ensures
        no_dot_pair(spec_sanitize(s)),
{
    let stripped = strip_dot_pairs(kept_chars(s));
    lemma_strip_no_dot_pair(kept_chars(s));
    lemma_trim_leading_no_dot_pair(stripped, space_pred());
    lemma_trim_trailing_no_dot_pair(trim_leading(stripped, space_pred()), space_pred());
    let ws_trimmed = trim_both(stripped, space_pred());
    lemma_trim_leading_no_dot_pair(ws_trimmed, dot_pred());
    lemma_trim_trailing_no_dot_pair(trim_leading(ws_trimmed, dot_pred()), dot_pred());
}

/// Cleans a channel or group name for use as a file or directory name.
///
/// Removes the characters `<>:"/\|?*` together with backtick, dollar and
/// control characters, collapses `..` runs, trims whitespace and dots from
/// both ends, and substitutes a fixed placeholder when nothing remains.
pub fn sanitize_filename(name: &str) -> (r: String)
    ensures
        r@ == spec_sanitize(name@),
{
    let chars = crate::text::str_to_chars(name);
    let cleaned = remove_bad_chars(&chars);
    let stripped = strip_dot_pairs_exec(&cleaned);
    let trimmed_ws = trim_ends(&stripped, true);
    let trimmed = trim_ends(&trimmed_ws, false);
    if trimmed.len() == 0 {
        let mut p: Vec<char> = Vec::new();
        p.push('d');
        p.push('o');
        p.push('w');
        p.push('n');
        p.push('l');
        p.push('o');
        p.push('a');
        p.push('d');
        p.push('e');
        p.push('d');
        p.push('_');
        p.push('f');
        p.push('i');
        p.push('l');
        p.push('e');
        assert(p@ =~= placeholder_name());
        crate::text::chars_to_string(&p)
    } else {
        crate::text::chars_to_string(&trimmed)
    }
}

} // verus!
