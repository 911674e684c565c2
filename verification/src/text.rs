//! Character-level helpers: whitespace-separated words and ASCII
//! case-insensitive comparison, over the `Seq<char>` view of strings.

use vstd::prelude::*;
use vstd::string::*;

verus! {

/// The views of a sequence of strings.
pub open spec fn views(v: Seq<String>) -> Seq<Seq<char>> {
    Seq::new(v.len(), |i: int| v[i]@)
}

/// Pushing a string pushes its view.
pub proof fn lemma_views_push(v: Seq<String>, s: String)
    ensures
        views(v.push(s)) == views(v).push(s@),
{
    assert(views(v.push(s)) =~= views(v).push(s@));
}

/// Code points with the Unicode `White_Space` property.
pub open spec fn is_whitespace(c: char) -> bool {
    let n = c as u32;
    ||| 0x09 <= n <= 0x0d
    ||| n == 0x20
    ||| n == 0x85
    ||| n == 0xa0
    ||| n == 0x1680
    ||| 0x2000 <= n <= 0x200a
    ||| n == 0x2028
    ||| n == 0x2029
    ||| n == 0x202f
    ||| n == 0x205f
    ||| n == 0x3000
}

/// Length of the longest prefix of `s` that holds no whitespace.
pub open spec fn word_len(s: Seq<char>) -> nat
    decreases s.len(),
{
    if s.len() == 0 || is_whitespace(s[0]) {
        0
    } else {
        1 + word_len(s.skip(1))
    }
}

/// The maximal runs of non-whitespace characters of `s`, in order.
pub open spec fn words(s: Seq<char>) -> Seq<Seq<char>>
    decreases s.len(),
    via words_decreases
{
    if s.len() == 0 {
        Seq::empty()
    } else if is_whitespace(s[0]) {
        words(s.skip(1))
    } else {
        seq![s.take(word_len(s) as int)] + words(s.skip(word_len(s) as int))
    }
}

#[via_fn]
proof fn words_decreases(s: Seq<char>) {
    lemma_word_len_bounds(s);
}

/// A non-empty text without whitespace.
pub open spec fn is_word(w: Seq<char>) -> bool {
    w.len() > 0 && forall|i: int| 0 <= i < w.len() ==> !is_whitespace(#[trigger] w[i])
}

/// The code point of `c` with ASCII upper-case letters folded to lower case.
pub open spec fn ascii_lower(c: char) -> int {
    if 'A' <= c <= 'Z' {
        c as u32 + 32
    } else {
        c as u32 as int
    }
}

/// Equality of two texts up to the case of ASCII letters.
pub open spec fn same_ignoring_ascii_case(a: Seq<char>, b: Seq<char>) -> bool {
    &&& a.len() == b.len()
    &&& forall|i: int| 0 <= i < a.len() ==> ascii_lower(#[trigger] a[i]) == ascii_lower(b[i])
}

/// The first word ends where the text ends or whitespace begins.
pub proof fn lemma_word_len_bounds(s: Seq<char>)
    ensures
        word_len(s) <= s.len(),
        forall|i: int| 0 <= i < word_len(s) ==> !is_whitespace(#[trigger] s[i]),
        word_len(s) < s.len() ==> is_whitespace(s[word_len(s) as int]),
    decreases s.len(),
{
    if s.len() == 0 || is_whitespace(s[0]) {
    } else {
        let t = s.skip(1);
        lemma_word_len_bounds(t);
        assert forall|i: int| 0 <= i < word_len(s) implies !is_whitespace(#[trigger] s[i]) by {
            if i > 0 {
                assert(s[i] == t[i - 1]);
            }
        }
        if word_len(s) < s.len() {
            assert(s[word_len(s) as int] == t[word_len(t) as int]);
        }
    }
}

/// A run of `n` non-whitespace characters that ends at whitespace or at the
/// end of the text is the first word.
pub proof fn lemma_word_len_is(s: Seq<char>, n: nat)
    requires
        n <= s.len(),
        forall|i: int| 0 <= i < n ==> !is_whitespace(#[trigger] s[i]),
        n < s.len() ==> is_whitespace(s[n as int]),
    ensures
        word_len(s) == n,
    decreases s.len(),
{
    if s.len() == 0 || is_whitespace(s[0]) {
    } else {
        let t = s.skip(1);
        assert forall|i: int| 0 <= i < n - 1 implies !is_whitespace(#[trigger] t[i]) by {
            assert(t[i] == s[i + 1]);
        }
        lemma_word_len_is(t, (n - 1) as nat);
    }
}

/// Every word is non-empty and free of whitespace.
pub proof fn lemma_words_are_words(s: Seq<char>)
    ensures
        forall|k: int| 0 <= k < words(s).len() ==> is_word(#[trigger] words(s)[k]),
    decreases s.len(),
{
    if s.len() == 0 {
        assert(words(s).len() == 0);
    } else if is_whitespace(s[0]) {
        lemma_words_are_words(s.skip(1));
        assert(words(s) == words(s.skip(1)));
    } else {
        let n = word_len(s) as int;
        lemma_word_len_bounds(s);
        lemma_words_are_words(s.skip(n));
        let tail = words(s.skip(n));
        assert(words(s) == seq![s.take(n)] + tail);
        assert forall|k: int| 0 <= k < words(s).len() implies is_word(#[trigger] words(s)[k]) by {
            if k == 0 {
                assert(words(s)[0] == s.take(n));
            } else {
                assert(words(s)[k] == tail[k - 1]);
            }
        }
    }
}

/// The characters of a string.
pub fn chars_of(s: &str) -> (v: Vec<char>)
    ensures
        v@ == s@,
{
    let mut v: Vec<char> = Vec::new();
    for c in it: s.chars()
        invariant
            v@ == it.seq().take(it.index() as int),
            it.seq() == s@,
    {
        v.push(c);
    }
    v
}

pub fn char_is_whitespace(c: char) -> (r: bool)
    ensures
        r == is_whitespace(c),
{
    let n: u32 = c as u32;
    (0x09 <= n && n <= 0x0d) || n == 0x20 || n == 0x85 || n == 0xa0 || n == 0x1680 || (0x2000 <= n
        && n <= 0x200a) || n == 0x2028 || n == 0x2029 || n == 0x202f || n == 0x205f || n == 0x3000
}

fn lower_code(c: char) -> (r: u32)
    ensures
        r == ascii_lower(c),
{
    let n: u32 = c as u32;
    if 0x41 <= n && n <= 0x5a {
        n + 32
    } else {
        n
    }
}

/// Whether two strings are equal up to the case of ASCII letters.
pub fn eq_ignore_ascii_case(a: &str, b: &str) -> (r: bool)
    ensures
        r == same_ignoring_ascii_case(a@, b@),
{
    let x = chars_of(a);
    let y = chars_of(b);
    if x.len() != y.len() {
        return false;
    }
    let mut i: usize = 0;
    while i < x.len()
        invariant
            i <= x.len(),
            x.len() == y.len(),
            x@ == a@,
            y@ == b@,
            forall|j: int| 0 <= j < i ==> ascii_lower(#[trigger] x@[j]) == ascii_lower(y@[j]),
        decreases x.len() - i,
    {
        if lower_code(x[i]) != lower_code(y[i]) {
            return false;
        }
        i += 1;
    }
    true
}

/// Splits `s` at whitespace and drops the empty pieces.
pub fn split_whitespace(s: &str) -> (out: Vec<String>)
    ensures
        views(out@) == words(s@),
{
    let cs = chars_of(s);
    let n = cs.len();
    let mut out: Vec<String> = Vec::new();
    let mut i: usize = 0;
    assert(s@.skip(0) == s@);
    while i < n
        invariant
            i <= n,
            n == cs.len(),
            cs@ == s@,
            words(s@) == views(out@) + words(s@.skip(i as int)),
        decreases n - i,
    {
        let ghost rest = s@.skip(i as int);
        if char_is_whitespace(cs[i]) {
            assert(rest.skip(1) == s@.skip(i + 1));
            i += 1;
        } else {
            let mut j: usize = i + 1;
            while j < n && !char_is_whitespace(cs[j])
                invariant
                    i < j <= n,
                    n == cs.len(),
                    cs@ == s@,
                    forall|k: int| i <= k < j ==> !is_whitespace(#[trigger] cs@[k]),
                decreases n - j,
            {
                j += 1;
            }
            proof {
                assert forall|k: int| 0 <= k < j - i implies !is_whitespace(#[trigger] rest[k]) by {
                    assert(rest[k] == cs@[i + k]);
                }
                lemma_word_len_is(rest, (j - i) as nat);
                assert(rest.take(j - i) == s@.subrange(i as int, j as int));
                assert(rest.skip(j - i) == s@.skip(j as int));
            }
            let word = s.substring_char(i, j).to_owned();
            let ghost before = views(out@);
            out.push(word);
            assert(views(out@) == before + seq![rest.take(j - i)]);
            i = j;
        }
    }
    assert(s@.skip(n as int).len() == 0);
    out
}

} // verus!
