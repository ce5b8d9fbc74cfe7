//! Transform a word by replacing its first "toilet-shaped" part with the
//! literal word `toilet`. The shape is: a `t`, one or more letters none of
//! which is a `t`, an `l` somewhere among them, and a closing `t` — with the
//! `t`s and the `l` accepted in either case.

use vstd::prelude::*;
use vstd::string::StrSliceExecFns;
use vstd::string::StringExecFns;

verus! {

/// An error returned by the word transformer.
#[derive(Debug, PartialEq, Eq, Clone, Copy)]
pub enum Error {
    /// The word contains a space.
    WordHasSpace,
    /// No part of the word has the shape, or the replacement leaves the word
    /// unchanged.
    NonToiletWord,
}

/// A `t` in either case.
pub open spec fn is_t(c: char) -> bool {
    c == 't' || c == 'T'
}

/// An `l` in either case.
pub open spec fn is_l(c: char) -> bool {
    c == 'l' || c == 'L'
}

/// The shape spans `s[i ..= j]`: both ends are `t`s, no `t` stands strictly
/// between them, and an `l` stands inside with at least one non-`t` letter
/// on each side of it. For a given start `i` at most one end `j` qualifies:
/// the first `t` after `i`.
pub open spec fn pattern_spans(s: Seq<char>, i: int, j: int) -> bool {
    &&& 0 <= i < j < s.len()
    &&& is_t(s[i])
    &&& is_t(s[j])
    &&& forall|p: int| i < p < j ==> !is_t(#[trigger] s[p])
    &&& exists|p: int| i + 2 <= p <= j - 2 && is_l(#[trigger] s[p])
}

/// The shape occurs starting at `i`.
pub open spec fn pattern_at(s: Seq<char>, i: int) -> bool {
    exists|j: int| pattern_spans(s, i, j)
}

/// `s` with the span `[i, j]` replaced by the word `toilet`.
pub open spec fn spec_replaced(s: Seq<char>, i: int, j: int) -> Seq<char> {
    s.subrange(0, i) + "toilet"@ + s.subrange(j + 1, s.len() as int)
}

/// Whether the word contains a space.
pub open spec fn has_space(s: Seq<char>) -> bool {
    exists|p: int| 0 <= p < s.len() && s[p] == ' '
}

/// Decide whether `c` is a `t` of either case.
fn t_char(c: char) -> (r: bool)
    ensures
        r == is_t(c),
{
    c == 't' || c == 'T'
}

/// Decide whether `c` is an `l` of either case.
fn l_char(c: char) -> (r: bool)
    ensures
        r == is_l(c),
{
    c == 'l' || c == 'L'
}

/// The position of the first `t` after `from`, if there is one.
fn next_t(word: &str, from: usize) -> (r: Option<usize>)
    requires
        from < word@.len(),
    ensures
        r matches Some(j) ==> from < j < word@.len() && is_t(word@[j as int]) && (forall|p: int|
            from < p < j ==> !is_t(#[trigger] word@[p])),
        r is None ==> forall|p: int|
            from < p < word@.len() ==> !is_t(#[trigger] word@[p]),
{
    let n: usize = word.unicode_len();
    let mut j: usize = from + 1;
    while j < n
        invariant
            n == word@.len(),
            from < j <= n,
            forall|p: int| from < p < j ==> !is_t(#[trigger] word@[p]),
        decreases n - j,
    {
        if t_char(word.get_char(j)) {
            return Some(j);
        }
        j = j + 1;
    }
    None
}

/// Whether an `l` of either case stands in `s[lo ..= hi]`.
fn has_l_between(word: &str, lo: usize, hi: usize) -> (r: bool)
    requires
        lo <= hi,
        hi < word@.len(),
    ensures
        r == exists|p: int| lo <= p <= hi && is_l(#[trigger] word@[p]),
{
    let mut p: usize = lo;
    while p < hi
        invariant
            hi < word@.len(),
            lo <= p <= hi,
            forall|p2: int| lo <= p2 < p ==> !is_l(#[trigger] word@[p2]),
        decreases hi - p,
    {
        if l_char(word.get_char(p)) {
            return true;
        }
        p = p + 1;
    }
    l_char(word.get_char(hi))
}

/// The first occurrence of the shape: the smallest start position together
/// with its (unique) end position.
fn find_first_span(word: &str) -> (r: Option<(usize, usize)>)
    ensures
        r matches Some(ij) ==> pattern_spans(word@, ij.0 as int, ij.1 as int) && (forall|i2: int|
            0 <= i2 < ij.0 ==> !pattern_at(word@, i2)),
        r is None ==> forall|i: int| 0 <= i < word@.len() ==> !pattern_at(word@, i),
{
    let n: usize = word.unicode_len();
    let mut i: usize = 0;
    while i < n
        invariant
            n == word@.len(),
            i <= n,
            forall|i2: int| 0 <= i2 < i ==> !pattern_at(word@, i2),
        decreases n - i,
    {
        if t_char(word.get_char(i)) {
            match next_t(word, i) {
                Some(j) => {
                    if j - i >= 4 && has_l_between(word, i + 2, j - 2) {
                        proof {
                            assert(pattern_spans(word@, i as int, j as int));
                        }
                        return Some((i, j));
                    }
                    proof {
                        let s = word@;
                        assert forall|j2: int| !pattern_spans(s, i as int, j2) by {
                            if pattern_spans(s, i as int, j2) {
                                if j2 < j {
                                    assert(!is_t(s[j2]));
                                } else if j2 > j {
                                    assert(!is_t(s[j as int]));
                                }
                                // so j2 == j, and the l-window [i+2, j-2] is
                                // empty or was scanned without an l
                            }
                        }
                        assert(!pattern_at(s, i as int));
                    }
                },
                None => {
                    proof {
                        let s = word@;
                        assert forall|j2: int| !pattern_spans(s, i as int, j2) by {
                            if pattern_spans(s, i as int, j2) {
                                assert(!is_t(s[j2]));
                            }
                        }
                        assert(!pattern_at(s, i as int));
                    }
                },
            }
        } else {
            proof {
                let s = word@;
                assert forall|j2: int| !pattern_spans(s, i as int, j2) by {
                    if pattern_spans(s, i as int, j2) {
                        assert(is_t(s[i as int]));
                    }
                }
                assert(!pattern_at(s, i as int));
            }
        }
        i = i + 1;
    }
    None
}

/// Whether a built string equals the given word, character for character.
fn string_equals_str(a: &String, b: &str) -> (r: bool)
    ensures
        r == (a@ == b@),
{
    let an: usize = a.as_str().unicode_len();
    let bn: usize = b.unicode_len();
    if an != bn {
        proof {
            assert(a@.len() != b@.len());
        }
        return false;
    }
    let mut p: usize = 0;
    while p < an
        invariant
            an == a@.len(),
            an == b@.len(),
            p <= an,
            forall|p2: int| 0 <= p2 < p ==> a@[p2] == b@[p2],
        decreases an - p,
    {
        if a.as_str().get_char(p) != b.get_char(p) {
            proof {
                assert(a@[p as int] != b@[p as int]);
            }
            return false;
        }
        p = p + 1;
    }
    proof {
        assert(a@ =~= b@);
    }
    true
}

/// Replace the first part of `word` shaped `t`, some non-`t` letters, an
/// `l`, more non-`t` letters, `t` with the word `toilet`.
///
/// A word with a space is rejected. A word without the shape, or one that
/// the replacement leaves unchanged, is rejected as not a toilet word.
pub fn toiletify_word(word: &str) -> (r: Result<String, Error>)
    ensures
        has_space(word@) ==> r == Err::<String, Error>(Error::WordHasSpace),
        !has_space(word@) && (forall|i: int| 0 <= i < word@.len() ==> !pattern_at(word@, i))
            ==> r == Err::<String, Error>(Error::NonToiletWord),
        forall|i: int, j: int|
            (!has_space(word@) && #[trigger] pattern_spans(word@, i, j) && (forall|i2: int|
                0 <= i2 < i ==> !pattern_at(word@, i2)) && spec_replaced(word@, i, j) == word@)
                ==> r == Err::<String, Error>(Error::NonToiletWord),
        forall|i: int, j: int|
            (!has_space(word@) && #[trigger] pattern_spans(word@, i, j) && (forall|i2: int|
                0 <= i2 < i ==> !pattern_at(word@, i2)) && spec_replaced(word@, i, j) != word@)
                ==> (r matches Ok(out) && out@ == spec_replaced(word@, i, j)),
{
    let n: usize = word.unicode_len();
    let mut idx: usize = 0;
    while idx < n
        invariant
            n == word@.len(),
            idx <= n,
            forall|p: int| 0 <= p < idx ==> word@[p] != ' ',
        decreases n - idx,
    {
        if word.get_char(idx) == ' ' {
            proof {
                assert(word@[idx as int] == ' ');
            }
            return Err(Error::WordHasSpace);
        }
        idx = idx + 1;
    }
    proof {
        assert(!has_space(word@));
    }
    match find_first_span(word) {
        None => {
            proof {
                let s = word@;
                assert forall|i: int, j: int|
                    #![trigger pattern_spans(s, i, j)]
                    !pattern_spans(s, i, j) by {
                    if pattern_spans(s, i, j) {
                        assert(pattern_at(s, i));
                    }
                }
            }
            Err(Error::NonToiletWord)
        },
        Some((start, endpos)) => {
            let prefix = word.substring_char(0, start);
            let suffix = word.substring_char(endpos + 1, n);
            let mut out = prefix.to_owned();
            out.append("toilet");
            out.append(suffix);
            proof {
                let s = word@;
                assert(out@ == spec_replaced(s, start as int, endpos as int));
                assert(pattern_at(s, start as int));
                // the hypotheses of the contract pin down the span we found
                assert forall|i: int, j: int|
                    #![trigger pattern_spans(s, i, j)]
                    (pattern_spans(s, i, j) && (forall|i2: int|
                        0 <= i2 < i ==> !pattern_at(s, i2))) implies (i == start as int && j
                    == endpos as int) by {
                    assert(pattern_at(s, i));
                    assert(i == start as int);
                    if j < endpos as int {
                        assert(!is_t(s[j]));
                    } else if j > endpos as int {
                        assert(!is_t(s[endpos as int]));
                    }
                }
            }
            if string_equals_str(&out, word) {
                Err(Error::NonToiletWord)
            } else {
                Ok(out)
            }
        },
    }
}

} // verus!
