//! The bracket-notation field-name parser.
//!
//! A field name addresses a leaf of the schema: `name`, `name[key]`,
//! `name[key][]`, `name[]`. Parsing splits the name on `[` and turns each
//! segment into one addressing step: an exact `]` marks an array step, a
//! segment ending in `]` is a map step under the stripped key, and the
//! leading unbracketed segment is a map step under itself.

use vstd::prelude::*;

use crate::error::Error;
use crate::text::lemma_split_on_len;
use crate::text::split_exec;
use crate::text::split_on;

verus! {

/// One addressing step of a parsed field name: descend into a map under a
/// key, or append to an array.
#[derive(Clone, Debug, PartialEq)]
pub enum NamePart {
    Mapping(String),
    Array,
}

/// The mathematical shape of a [`NamePart`]: the key as a character
/// sequence.
pub enum NamePartView {
    Mapping(Seq<char>),
    Array,
}

impl View for NamePart {
    type V = NamePartView;

    open spec fn view(&self) -> NamePartView {
        match self {
            NamePart::Mapping(s) => NamePartView::Mapping(s@),
            NamePart::Array => NamePartView::Array,
        }
    }
}

impl DeepView for NamePart {
    type V = NamePartView;

    open spec fn deep_view(&self) -> NamePartView {
        self.view()
    }
}

impl NamePart {
    /// True when this step addresses a map (carries a key); false for an
    /// array step.
    pub fn is_map(&self) -> (r: bool)
        ensures
            r == (self@ is Mapping),
    {
        match self {
            NamePart::Mapping(_) => true,
            NamePart::Array => false,
        }
    }
}

/// The key left when every trailing `]` of a segment is stripped.
pub open spec fn strip_trailing_brackets(seg: Seq<char>) -> Seq<char>
    decreases seg.len(),
{
    if seg.len() > 0 && seg.last() == ']' {
        strip_trailing_brackets(seg.drop_last())
    } else {
        seg
    }
}

/// The addressing step denoted by one raw segment of a split name.
pub open spec fn segment_part(seg: Seq<char>) -> NamePartView {
    if seg =~= seq![']'] {
        NamePartView::Array
    } else if seg.len() > 0 && seg.last() == ']' {
        NamePartView::Mapping(strip_trailing_brackets(seg))
    } else {
        NamePartView::Mapping(seg)
    }
}

/// The full parse of a field name: every segment of the split, in order,
/// turned into its addressing step.
pub open spec fn parsed_name(s: Seq<char>) -> Seq<NamePartView> {
    split_on(s, '[').map_values(|seg| segment_part(seg))
}

/// Whether a field name is acceptable: it may not open with a bracket, and
/// its first segment must denote a map step.
pub open spec fn name_parse_ok(s: Seq<char>) -> bool {
    &&& !(s.len() > 0 && s[0] == '[')
    &&& segment_part(split_on(s, '[')[0]) is Mapping
}

/// The addressing step denoted by one raw segment.
fn segment_to_part(seg: &str) -> (r: NamePart)
    ensures
        r@ == segment_part(seg@),
{
    let m = seg.unicode_len();
    if m == 1 && seg.get_char(0) == ']' {
        proof {
            assert(seg@ =~= seq![']']);
        }
        NamePart::Array
    } else if m > 0 && seg.get_char(m - 1) == ']' {
        let mut j: usize = m;
        proof {
            assert(seg@.subrange(0, m as int) =~= seg@);
        }
        while j > 0 && seg.get_char(j - 1) == ']'
            invariant
                j <= m,
                m == seg@.len(),
                strip_trailing_brackets(seg@) == strip_trailing_brackets(
                    seg@.subrange(0, j as int),
                ),
            decreases j,
        {
            proof {
                let cur = seg@.subrange(0, j as int);
                assert(cur.last() == ']');
                assert(cur.drop_last() =~= seg@.subrange(0, j as int - 1));
            }
            j -= 1;
        }
        proof {
            let cur = seg@.subrange(0, j as int);
            if j > 0 {
                assert(cur.last() != ']');
            }
            assert(strip_trailing_brackets(seg@) == cur);
            assert(seg@.len() != seq![']'].len() || seg@[0] != ']');
            assert(!(seg@ =~= seq![']']));
        }
        let key = seg.substring_char(0, j).to_owned();
        NamePart::Mapping(key)
    } else {
        proof {
            if seg@ =~= seq![']'] {
                assert(seg@.len() == 1 && seg@[0] == ']');
            }
        }
        NamePart::Mapping(seg.to_owned())
    }
}

/// Parse a bracket-notation field name into its ordered addressing steps.
///
/// Succeeds exactly when the name does not open with a bracket and its
/// leading segment names a map key; a rejected name reports a
/// Content-Disposition error.
pub fn parse_multipart_name(name: String) -> (r: Result<Vec<NamePart>, Error>)
    ensures
        r is Ok <==> name_parse_ok(name@),
        r matches Ok(v) ==> v.deep_view() == parsed_name(name@),
        r matches Err(e) ==> e == Error::ContentDisposition,
{
    let s = name.as_str();
    let n = s.unicode_len();
    if n > 0 && s.get_char(0) == '[' {
        return Err(Error::ContentDisposition);
    }
    let segs = split_exec(s, '[');
    proof {
        lemma_split_on_len(s@, '[');
    }
    let mut parts: Vec<NamePart> = Vec::new();
    let mut idx: usize = 0;
    while idx < segs.len()
        invariant
            idx <= segs.len(),
            segs.deep_view() == split_on(name@, '['),
            segs.deep_view().len() >= 1,
            parts.deep_view() =~= parsed_name(name@).subrange(0, idx as int),
            idx >= 1 ==> segment_part(segs.deep_view()[0]) is Mapping,
        decreases segs.len() - idx,
    {
        let p = segment_to_part(segs[idx].as_str());
        if idx == 0 && !p.is_map() {
            return Err(Error::ContentDisposition);
        }
        let ghost prev = parts.deep_view();
        parts.push(p);
        idx += 1;
        proof {
            let full = parsed_name(name@);
            let dv = parts.deep_view();
            assert(dv.len() == prev.len() + 1);
            assert forall|k: int| 0 <= k < dv.len() implies dv[k] == full[k] by {
                if k < prev.len() {
                    assert(dv[k] == prev[k]);
                    assert(prev[k] == full.subrange(0, prev.len() as int)[k]);
                } else {
                    assert(dv[k] == p@);
                    assert(full[k] == segment_part(split_on(name@, '[')[k]));
                }
            }
            assert(dv =~= full.subrange(0, idx as int));
        }
    }
    proof {
        assert(parts.deep_view() =~= parsed_name(name@));
    }
    Ok(parts)
}

} // verus!
