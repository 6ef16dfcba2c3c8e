//! Character-level helpers over strings: locating a separator, splitting on
//! it, and comparing two strings character by character.

use vstd::prelude::*;

verus! {

/// The position of the first occurrence of `c` in `s` at or after `i`, or
/// `s.len()` when there is none (or when `i` is out of range).
pub open spec fn char_pos(s: Seq<char>, c: char, i: int) -> int
    decreases s.len() - i,
{
    if i < 0 || i >= s.len() {
        s.len() as int
    } else if s[i] == c {
        i
    } else {
        char_pos(s, c, i + 1)
    }
}

/// `char_pos` stays within `[i, s.len()]`, finds only `c`, and skips no
/// earlier occurrence.
pub proof fn lemma_char_pos(s: Seq<char>, c: char, i: int)
    requires
        0 <= i <= s.len(),
    ensures
        i <= char_pos(s, c, i) <= s.len(),
        char_pos(s, c, i) < s.len() ==> s[char_pos(s, c, i)] == c,
        forall|k: int| i <= k < char_pos(s, c, i) ==> s[k] != c,
    decreases s.len() - i,
{
    if i < s.len() && s[i] != c {
        lemma_char_pos(s, c, i + 1);
    }
}

/// The segments of `s` split on `c`: splitting never yields an empty list,
/// and each separator ends one segment.
pub open spec fn split_on(s: Seq<char>, c: char) -> Seq<Seq<char>>
    decreases s.len(),
{
    let p = char_pos(s, c, 0);
    if 0 <= p < s.len() {
        seq![s.subrange(0, p)] + split_on(s.subrange(p + 1, s.len() as int), c)
    } else {
        seq![s]
    }
}

/// Splitting yields at least one segment.
pub proof fn lemma_split_on_len(s: Seq<char>, c: char)
    ensures
        split_on(s, c).len() >= 1,
    decreases s.len(),
{
    let p = char_pos(s, c, 0);
    if 0 <= p < s.len() {
        lemma_split_on_len(s.subrange(p + 1, s.len() as int), c);
    }
}


/// The position of the first `c` in `s`, or `s.len()` when `s` has none.
pub(crate) fn find_char(s: &str, c: char) -> (r: usize)
    ensures
        r as int == char_pos(s@, c, 0),
        r <= s@.len(),
{
    let n = s.unicode_len();
    let mut i: usize = 0;
    while i < n
        invariant
            0 <= i <= n,
            n == s@.len(),
            forall|k: int| 0 <= k < i ==> s@[k] != c,
        decreases n - i,
    {
        if s.get_char(i) == c {
            proof {
                lemma_char_pos(s@, c, 0);
                let p = char_pos(s@, c, 0);
                assert(p < s@.len() ==> s@[p] == c);
                assert(p <= i) by {
                    if p > i {
                        assert(s@[i as int] != c);
                    }
                };
                assert(p == i);
            }
            return i;
        }
        i += 1;
    }
    proof {
        lemma_char_pos(s@, c, 0);
        let p = char_pos(s@, c, 0);
        assert(p == s@.len()) by {
            if p < s@.len() {
                assert(s@[p] == c);
            }
        };
    }
    n
}

/// The raw segments of `s` split on `c`, each as an owned string.
pub(crate) fn split_exec(s: &str, c: char) -> (r: Vec<String>)
    ensures
        r.deep_view() == split_on(s@, c),
    decreases s@.len(),
{
    let n = s.unicode_len();
    let p = find_char(s, c);
    if p < n {
        let head = s.substring_char(0, p).to_owned();
        let tail = s.substring_char(p + 1, n);
        let mut rest = split_exec(tail, c);
        rest.insert(0, head);
        proof {
            let whole = split_on(s@, c);
            assert(whole == seq![s@.subrange(0, p as int)] + split_on(
                s@.subrange(p as int + 1, s@.len() as int),
                c,
            ));
            assert(rest.deep_view() =~= whole);
        }
        rest
    } else {
        let mut v: Vec<String> = Vec::new();
        v.push(s.to_owned());
        proof {
            assert(v.deep_view() =~= split_on(s@, c));
        }
        v
    }
}

/// Whether two strings hold the same characters.
pub(crate) fn str_eq(a: &str, b: &str) -> (r: bool)
    ensures
        r == (a@ == b@),
{
    let n = a.unicode_len();
    let m = b.unicode_len();
    if n != m {
        return false;
    }
    let mut i: usize = 0;
    while i < n
        invariant
            0 <= i <= n,
            n == a@.len(),
            n == b@.len(),
            forall|k: int| 0 <= k < i ==> a@[k] == b@[k],
        decreases n - i,
    {
        if a.get_char(i) != b.get_char(i) {
            return false;
        }
        i += 1;
    }
    proof {
        assert(a@ =~= b@);
    }
    true
}

} // verus!
