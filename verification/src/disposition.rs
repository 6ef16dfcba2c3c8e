//! The Content-Disposition header parser.
//!
//! The header text is split on `;`; the leading disposition-type token is
//! skipped, and every remaining `key=value` attribute (the value optionally
//! double-quoted, both sides trimmed) is inspected for the `name` and
//! `filename` attributes. All other attributes are ignored.

use vstd::prelude::*;

use crate::error::Error;
use crate::text::char_pos;
use crate::text::find_char;
use crate::text::lemma_split_on_len;
use crate::text::split_exec;
use crate::text::split_on;
use crate::text::str_eq;

verus! {

/// The two attributes of a part's Content-Disposition header that the
/// decoder reads; either may be absent.
#[derive(Clone, Debug, PartialEq)]
pub struct ContentDisposition {
    pub name: Option<String>,
    pub filename: Option<String>,
}

/// The mathematical shape of a [`ContentDisposition`].
pub struct DispositionView {
    pub name: Option<Seq<char>>,
    pub filename: Option<Seq<char>>,
}

impl View for ContentDisposition {
    type V = DispositionView;

    open spec fn view(&self) -> DispositionView {
        DispositionView {
            name: match &self.name {
                Some(s) => Some(s@),
                None => None,
            },
            filename: match &self.filename {
                Some(s) => Some(s@),
                None => None,
            },
        }
    }
}

impl ContentDisposition {
    /// A disposition with neither attribute set.
    pub fn empty() -> (r: Self)
        ensures
            r@.name is None,
            r@.filename is None,
    {
        ContentDisposition { name: None, filename: None }
    }
}

/// The characters trimmed around attribute keys and values: space and tab,
/// the blanks that can occur in a header line.
pub open spec fn is_blank(c: char) -> bool {
    c == ' ' || c == '\t'
}

/// `s` without its leading characters satisfying `p`.
pub open spec fn strip_front(s: Seq<char>, p: spec_fn(char) -> bool) -> Seq<char>
    decreases s.len(),
{
    if s.len() > 0 && p(s[0]) {
        strip_front(s.drop_first(), p)
    } else {
        s
    }
}

/// `s` without its trailing characters satisfying `p`.
pub open spec fn strip_back(s: Seq<char>, p: spec_fn(char) -> bool) -> Seq<char>
    decreases s.len(),
{
    if s.len() > 0 && p(s.last()) {
        strip_back(s.drop_last(), p)
    } else {
        s
    }
}

/// `s` with blanks stripped from both ends.
pub open spec fn trimmed(s: Seq<char>) -> Seq<char> {
    strip_back(strip_front(s, |c: char| is_blank(c)), |c: char| is_blank(c))
}

/// `s` with every double quote stripped from both ends.
pub open spec fn unquoted(s: Seq<char>) -> Seq<char> {
    strip_back(strip_front(s, |c: char| c == '"'), |c: char| c == '"')
}

/// When the first `a` characters satisfy `p` and the next one (if any) does
/// not, stripping the front removes exactly those `a` characters.
pub proof fn lemma_strip_front(s: Seq<char>, p: spec_fn(char) -> bool, a: int)
    requires
        0 <= a <= s.len(),
        forall|k: int| 0 <= k < a ==> p(s[k]),
        a < s.len() ==> !p(s[a]),
    ensures
        strip_front(s, p) =~= s.subrange(a, s.len() as int),
    decreases a,
{
    if a == 0 {
        assert(s.subrange(0, s.len() as int) =~= s);
    } else {
        let rest = s.drop_first();
        assert forall|k: int| 0 <= k < a - 1 implies p(rest[k]) by {
            assert(rest[k] == s[k + 1]);
        }
        lemma_strip_front(rest, p, a - 1);
        assert(rest.subrange(a - 1, rest.len() as int) =~= s.subrange(a, s.len() as int));
    }
}

/// When the characters from `b` on satisfy `p` and the one before `b` (if
/// any) does not, stripping the back removes exactly those characters.
pub proof fn lemma_strip_back(s: Seq<char>, p: spec_fn(char) -> bool, b: int)
    requires
        0 <= b <= s.len(),
        forall|k: int| b <= k < s.len() ==> p(s[k]),
        b > 0 ==> !p(s[b - 1]),
    ensures
        strip_back(s, p) =~= s.subrange(0, b),
    decreases s.len() - b,
{
    if b == s.len() {
        assert(s.subrange(0, s.len() as int) =~= s);
    } else {
        let rest = s.drop_last();
        lemma_strip_back(rest, p, b);
        assert(rest.subrange(0, b) =~= s.subrange(0, b));
    }
}

/// The `(key, value)` of one `;`-separated attribute section, or nothing
/// when the section holds no `=`.
pub open spec fn section_attr(sec: Seq<char>) -> Option<(Seq<char>, Seq<char>)> {
    let p = char_pos(sec, '=', 0);
    if p >= sec.len() {
        None
    } else {
        Some(
            (
                trimmed(sec.subrange(0, p)),
                unquoted(trimmed(sec.subrange(p + 1, sec.len() as int))),
            ),
        )
    }
}

/// One attribute section folded into the accumulated disposition: a `name`
/// or `filename` attribute overwrites that slot, everything else is
/// ignored.
pub open spec fn apply_section(acc: DispositionView, sec: Seq<char>) -> DispositionView {
    match section_attr(sec) {
        None => acc,
        Some((key, val)) => if key == "name"@ {
            DispositionView { name: Some(val), filename: acc.filename }
        } else if key == "filename"@ {
            DispositionView { name: acc.name, filename: Some(val) }
        } else {
            acc
        },
    }
}

/// A sequence of attribute sections folded left into an accumulator.
pub open spec fn fold_sections(acc: DispositionView, secs: Seq<Seq<char>>) -> DispositionView
    decreases secs.len(),
{
    if secs.len() == 0 {
        acc
    } else {
        fold_sections(apply_section(acc, secs[0]), secs.drop_first())
    }
}

/// The disposition read from a whole header line: every section after the
/// disposition-type token folded into an empty disposition.
pub open spec fn disposition_of(s: Seq<char>) -> DispositionView {
    fold_sections(
        DispositionView { name: None, filename: None },
        split_on(s, ';').drop_first(),
    )
}

/// Whether a character is a blank, as [`is_blank`] says.
fn is_blank_char(c: char) -> (r: bool)
    ensures
        r == is_blank(c),
{
    c == ' ' || c == '\t'
}

/// `s` with blanks trimmed from both ends.
fn trim_exec(s: &str) -> (r: &str)
    ensures
        r@ == trimmed(s@),
{
    let n = s.unicode_len();
    let mut a: usize = 0;
    while a < n && is_blank_char(s.get_char(a))
        invariant
            0 <= a <= n,
            n == s@.len(),
            forall|k: int| 0 <= k < a ==> is_blank(s@[k]),
        decreases n - a,
    {
        a += 1;
    }
    let mut b: usize = n;
    while b > a && is_blank_char(s.get_char(b - 1))
        invariant
            a <= b <= n,
            n == s@.len(),
            forall|k: int| 0 <= k < a ==> is_blank(s@[k]),
            a < n ==> !is_blank(s@[a as int]),
            forall|k: int| b <= k < n ==> is_blank(s@[k]),
        decreases b,
    {
        b -= 1;
    }
    proof {
        let blank = |c: char| is_blank(c);
        lemma_strip_front(s@, blank, a as int);
        let fr = s@.subrange(a as int, n as int);
        assert forall|k: int| (b - a) <= k < fr.len() implies blank(fr[k]) by {
            assert(fr[k] == s@[k + a]);
        }
        if b > a {
            assert(fr[b - a - 1] == s@[b - 1]);
        }
        lemma_strip_back(fr, blank, b - a);
        assert(fr.subrange(0, b - a) =~= s@.subrange(a as int, b as int));
    }
    s.substring_char(a, b)
}

/// `s` with every double quote stripped from both ends.
fn unquote_exec(s: &str) -> (r: &str)
    ensures
        r@ == unquoted(s@),
{
    let n = s.unicode_len();
    let mut a: usize = 0;
    while a < n && s.get_char(a) == '"'
        invariant
            0 <= a <= n,
            n == s@.len(),
            forall|k: int| 0 <= k < a ==> s@[k] == '"',
        decreases n - a,
    {
        a += 1;
    }
    let mut b: usize = n;
    while b > a && s.get_char(b - 1) == '"'
        invariant
            a <= b <= n,
            n == s@.len(),
            forall|k: int| 0 <= k < a ==> s@[k] == '"',
            a < n ==> s@[a as int] != '"',
            forall|k: int| b <= k < n ==> s@[k] == '"',
        decreases b,
    {
        b -= 1;
    }
    proof {
        let quote = |c: char| c == '"';
        lemma_strip_front(s@, quote, a as int);
        let fr = s@.subrange(a as int, n as int);
        assert forall|k: int| (b - a) <= k < fr.len() implies quote(fr[k]) by {
            assert(fr[k] == s@[k + a]);
        }
        if b > a {
            assert(fr[b - a - 1] == s@[b - 1]);
        }
        lemma_strip_back(fr, quote, b - a);
        assert(fr.subrange(0, b - a) =~= s@.subrange(a as int, b as int));
    }
    s.substring_char(a, b)
}

/// Read the `name` and `filename` attributes out of a part's
/// Content-Disposition header line.
///
/// `None` stands for a header that was absent or not decodable as text;
/// it is rejected with a Content-Disposition error. Any present header
/// parses (unknown attributes are ignored), so the result is `Ok` exactly
/// when a header line is given.
pub fn parse_content_disposition(header: Option<&str>) -> (r: Result<ContentDisposition, Error>)
    ensures
        r is Ok <==> header is Some,
        header matches Some(h) ==> r matches Ok(cd) && cd@ == disposition_of(h@),
        r matches Err(e) ==> e == Error::ContentDisposition,
{
    let h = match header {
        Some(h) => h,
        None => {
            return Err(Error::ContentDisposition);
        },
    };
    let sections = split_exec(h, ';');
    proof {
        lemma_split_on_len(h@, ';');
    }
    let mut acc = ContentDisposition::empty();
    let mut i: usize = 1;
    proof {
        let secs = sections.deep_view();
        assert(secs.drop_first() =~= secs.subrange(1, secs.len() as int));
    }
    while i < sections.len()
        invariant
            1 <= i <= sections.len(),
            sections.deep_view() == split_on(h@, ';'),
            sections.deep_view().len() >= 1,
            disposition_of(h@) == fold_sections(
                acc@,
                sections.deep_view().subrange(i as int, sections.deep_view().len() as int),
            ),
        decreases sections.len() - i,
    {
        let ghost secs = sections.deep_view();
        let ghost rest = secs.subrange(i as int, secs.len() as int);
        let sec = sections[i].as_str();
        let n = sec.unicode_len();
        let p = find_char(sec, '=');
        if p < n {
            let key = trim_exec(sec.substring_char(0, p));
            let raw_val = trim_exec(sec.substring_char(p + 1, n));
            let val = unquote_exec(raw_val);
            proof {
                assert(section_attr(sec@) == Some((key@, val@)));
            }
            if str_eq(key, "name") {
                acc = ContentDisposition { name: Some(val.to_owned()), filename: acc.filename };
            } else if str_eq(key, "filename") {
                acc = ContentDisposition { name: acc.name, filename: Some(val.to_owned()) };
            }
        }
        i += 1;
        proof {
            assert(rest.drop_first() =~= secs.subrange(i as int, secs.len() as int));
            assert(rest[0] == sec@);
        }
    }
    proof {
        let secs = sections.deep_view();
        assert(secs.subrange(i as int, secs.len() as int) =~= Seq::<Seq<char>>::empty());
    }
    Ok(acc)
}

} // verus!
