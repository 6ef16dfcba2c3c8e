//! The decoded result tree and its assembly.
//!
//! Each accepted part contributes one leaf payload at an address given by
//! its parsed name path. Consolidation wraps every leaf in the maps and
//! arrays its path prescribes and merges the wrapped values, in arrival
//! order, into one accumulator that always stays a map at top level.

use vstd::prelude::*;

use crate::buf::bytes_view;
use crate::name::NamePart;
use crate::name::NamePartView;

verus! {

/// One decoded raw leaf payload, before tree assembly.
///
/// A numeric field keeps the accepted literal text: an `Int` as the parsed
/// machine integer, a `Float` as the validated decimal text (conversion to
/// binary floating point is the caller's choice of precision, not this
/// library's).
#[derive(Debug, PartialEq)]
pub enum MultipartContent {
    File { filename: String, stored_as: String },
    Bytes(bytes::Bytes),
    Text(String),
    Int(i64),
    Float(String),
}

/// The mathematical shape of a [`MultipartContent`].
pub enum ContentView {
    File { filename: Seq<char>, stored_as: Seq<char> },
    Bytes(Seq<u8>),
    Text(Seq<char>),
    Int(i64),
    Float(Seq<char>),
}

impl View for MultipartContent {
    type V = ContentView;

    open spec fn view(&self) -> ContentView {
        match self {
            MultipartContent::File { filename, stored_as } => ContentView::File {
                filename: filename@,
                stored_as: stored_as@,
            },
            MultipartContent::Bytes(b) => ContentView::Bytes(bytes_view(*b)),
            MultipartContent::Text(s) => ContentView::Text(s@),
            MultipartContent::Int(i) => ContentView::Int(*i),
            MultipartContent::Float(s) => ContentView::Float(s@),
        }
    }
}

impl DeepView for MultipartContent {
    type V = ContentView;

    open spec fn deep_view(&self) -> ContentView {
        self.view()
    }
}

/// One resolved, accepted field: its address and its payload.
pub type MultipartHash = (Vec<NamePart>, MultipartContent);

/// The ordered sequence of accepted fields of one request.
pub type MultipartForm = Vec<MultipartHash>;

/// The result of a successful decode of a multipart stream.
///
/// Maps are kept as ordered key-value lists: keys arrive in insertion
/// order, and merging two maps merges the values of colliding keys.
#[derive(Debug, PartialEq)]
pub enum Value {
    Mapping(Vec<(String, Value)>),
    Array(Vec<Value>),
    File(String, String),
    Text(String),
    Int(i64),
    Float(String),
    Bytes(bytes::Bytes),
}

/// The mathematical shape of a [`Value`].
pub enum ValueView {
    Mapping(Seq<(Seq<char>, ValueView)>),
    Array(Seq<ValueView>),
    File(Seq<char>, Seq<char>),
    Text(Seq<char>),
    Int(i64),
    Float(Seq<char>),
    Bytes(Seq<u8>),
}

/// The shape of a value: its leaves and every key and element in order.
pub open spec fn value_view(v: Value) -> ValueView
    decreases v,
{
    match v {
        Value::Mapping(entries) => ValueView::Mapping(entries_view(entries@)),
        Value::Array(items) => ValueView::Array(values_view(items@)),
        Value::File(filename, stored_as) => ValueView::File(filename@, stored_as@),
        Value::Text(s) => ValueView::Text(s@),
        Value::Int(i) => ValueView::Int(i),
        Value::Float(s) => ValueView::Float(s@),
        Value::Bytes(b) => ValueView::Bytes(bytes_view(b)),
    }
}

/// The shapes of a map's entries, in order.
pub open spec fn entries_view(entries: Seq<(String, Value)>) -> Seq<(Seq<char>, ValueView)>
    decreases entries,
{
    if entries.len() == 0 {
        Seq::empty()
    } else {
        entries_view(entries.drop_last()).push(
            (entries.last().0@, value_view(entries.last().1)),
        )
    }
}

/// The shapes of an array's elements, in order.
pub open spec fn values_view(items: Seq<Value>) -> Seq<ValueView>
    decreases items,
{
    if items.len() == 0 {
        Seq::empty()
    } else {
        values_view(items.drop_last()).push(value_view(items.last()))
    }
}

impl View for Value {
    type V = ValueView;

    open spec fn view(&self) -> ValueView {
        value_view(*self)
    }
}

impl DeepView for Value {
    type V = ValueView;

    open spec fn deep_view(&self) -> ValueView {
        self.view()
    }
}

/// `entries_view` maps the sequence pointwise.
pub proof fn lemma_entries_view(entries: Seq<(String, Value)>)
    ensures
        entries_view(entries).len() == entries.len(),
        forall|i: int|
            0 <= i < entries.len() ==> entries_view(entries)[i] == (
                entries[i].0@,
                value_view(entries[i].1),
            ),
    decreases entries,
{
    if entries.len() > 0 {
        lemma_entries_view(entries.drop_last());
    }
}

/// `values_view` maps the sequence pointwise.
pub proof fn lemma_values_view(items: Seq<Value>)
    ensures
        values_view(items).len() == items.len(),
        forall|i: int| 0 <= i < items.len() ==> values_view(items)[i] == value_view(items[i]),
    decreases items,
{
    if items.len() > 0 {
        lemma_values_view(items.drop_last());
    }
}

/// The leaf value denoted by one decoded payload.
pub open spec fn content_value(c: ContentView) -> ValueView {
    match c {
        ContentView::File { filename, stored_as } => ValueView::File(filename, stored_as),
        ContentView::Bytes(b) => ValueView::Bytes(b),
        ContentView::Text(s) => ValueView::Text(s),
        ContentView::Int(i) => ValueView::Int(i),
        ContentView::Float(s) => ValueView::Float(s),
    }
}

impl From<MultipartContent> for Value {
    /// The leaf value a decoded payload turns into.
    fn from(mc: MultipartContent) -> (r: Value) {
        match mc {
            MultipartContent::File { filename, stored_as } => Value::File(filename, stored_as),
            MultipartContent::Bytes(b) => Value::Bytes(b),
            MultipartContent::Text(s) => Value::Text(s),
            MultipartContent::Int(i) => Value::Int(i),
            MultipartContent::Float(s) => Value::Float(s),
        }
    }
}

impl vstd::std_specs::convert::FromSpecImpl<MultipartContent> for Value {
    open spec fn obeys_from_spec() -> bool {
        true
    }

    open spec fn from_spec(mc: MultipartContent) -> Value {
        match mc {
            MultipartContent::File { filename, stored_as } => Value::File(filename, stored_as),
            MultipartContent::Bytes(b) => Value::Bytes(b),
            MultipartContent::Text(s) => Value::Text(s),
            MultipartContent::Int(i) => Value::Int(i),
            MultipartContent::Float(s) => Value::Float(s),
        }
    }
}

/// The index of the first entry under `key`, or `-1` when no entry has it.
pub open spec fn index_of_key(m: Seq<(Seq<char>, ValueView)>, key: Seq<char>) -> int
    decreases m.len(),
{
    if m.len() == 0 {
        -1
    } else if m[0].0 == key {
        0
    } else {
        let t = index_of_key(m.drop_first(), key);
        if t < 0 {
            -1
        } else {
            1 + t
        }
    }
}

/// `index_of_key` finds exactly the first entry under the key.
pub proof fn lemma_index_of_key(m: Seq<(Seq<char>, ValueView)>, key: Seq<char>)
    ensures
        index_of_key(m, key) == -1 ==> forall|i: int| 0 <= i < m.len() ==> m[i].0 != key,
        index_of_key(m, key) != -1 ==> {
            let at = index_of_key(m, key);
            &&& 0 <= at < m.len()
            &&& m[at].0 == key
            &&& forall|i: int| 0 <= i < at ==> m[i].0 != key
        },
    decreases m.len(),
{
    if m.len() > 0 && m[0].0 != key {
        let rest = m.drop_first();
        let t = index_of_key(rest, key);
        lemma_index_of_key(rest, key);
        if t >= 0 {
            assert(rest[t] == m[1 + t]);
            assert forall|i: int| 0 <= i < 1 + t implies m[i].0 != key by {
                if i > 0 {
                    assert(rest[i - 1] == m[i]);
                }
            }
        } else {
            assert forall|i: int| 0 <= i < m.len() implies m[i].0 != key by {
                if i > 0 {
                    assert(rest[i - 1] == m[i]);
                }
            }
        }
    }
}

/// One entry merged into a map's entries: a colliding key merges the two
/// values in place at the first occurrence, a new key is appended.
pub open spec fn merge_one(
    m: Seq<(Seq<char>, ValueView)>,
    entry: (Seq<char>, ValueView),
) -> Seq<(Seq<char>, ValueView)>
    decreases entry,
{
    let at = index_of_key(m, entry.0);
    if at >= 0 {
        m.update(at, (m[at].0, merge_value(m[at].1, entry.1)))
    } else {
        m.push(entry)
    }
}

/// A right-hand map's entries merged into a left-hand map's entries, in
/// order.
pub open spec fn merge_entries(
    m1: Seq<(Seq<char>, ValueView)>,
    m2: Seq<(Seq<char>, ValueView)>,
) -> Seq<(Seq<char>, ValueView)>
    decreases m2,
{
    if m2.len() == 0 {
        m1
    } else {
        merge_entries(merge_one(m1, m2[0]), m2.drop_first())
    }
}

/// Two values merged: map into map unions the entries (colliding keys merge
/// recursively), array into array appends, and any other pairing keeps the
/// left value unchanged — the right-hand value is silently dropped.
pub open spec fn merge_value(a: ValueView, b: ValueView) -> ValueView
    decreases b,
{
    match (a, b) {
        (ValueView::Mapping(m1), ValueView::Mapping(m2)) => ValueView::Mapping(
            merge_entries(m1, m2),
        ),
        (ValueView::Array(v1), ValueView::Array(v2)) => ValueView::Array(v1 + v2),
        _ => a,
    }
}

impl Value {
    /// Merge another value into this one, consuming both.
    ///
    /// Maps union by key and merge colliding values recursively; arrays
    /// append in arrival order; a mismatched pairing of shapes leaves this
    /// value unchanged and drops the other, raising no error.
    pub fn merge(self, rhs: Value) -> (r: Value)
        ensures
            r@ == merge_value(self@, rhs@),
        decreases rhs,
    {
        match (self, rhs) {
            (Value::Mapping(m1), Value::Mapping(m2)) => {
                proof {
                    assert(decreases_to!(Value::Mapping(m2) => m2));
                }
                Value::Mapping(merge_entries_exec(m1, m2))
            },
            (Value::Array(v1), Value::Array(v2)) => {
                let ghost a1 = v1@;
                let ghost a2 = v2@;
                let mut v1 = v1;
                let mut v2 = v2;
                while v2.len() > 0
                    invariant
                        v1@ + v2@ =~= a1 + a2,
                    decreases v2.len(),
                {
                    let x = v2.remove(0);
                    v1.push(x);
                }
                proof {
                    assert(v1@ =~= a1 + a2);
                    lemma_values_view(a1);
                    lemma_values_view(a2);
                    lemma_values_view(a1 + a2);
                    assert(values_view(a1 + a2) =~= values_view(a1) + values_view(a2));
                }
                Value::Array(v1)
            },
            (keep, _) => keep,
        }
    }
}

/// Merge the entries of a right-hand map into those of a left-hand map.
fn merge_entries_exec(m1: Vec<(String, Value)>, m2: Vec<(String, Value)>) -> (r: Vec<
    (String, Value),
>)
    ensures
        entries_view(r@) == merge_entries(entries_view(m1@), entries_view(m2@)),
    decreases m2@,
{
    let ghost e1 = entries_view(m1@);
    let ghost e2 = entries_view(m2@);
    proof {
        lemma_entries_view(m1@);
        lemma_entries_view(m2@);
    }
    if m2.len() == 0 {
        m1
    } else {
        let mut m2 = m2;
        let kv = m2.remove(0);
        let ghost kv_v = (kv.0@, value_view(kv.1));
        proof {
            assert(e2[0] == kv_v);
            lemma_entries_view(m2@);
            assert(entries_view(m2@) =~= e2.drop_first());
            assert(decreases_to!(e2 => e2[0]));
        }
        let m1b = merge_one_exec(m1, kv);
        let r = merge_entries_exec(m1b, m2);
        r
    }
}

/// Merge one entry into a map's entry list.
#[verifier::loop_isolation(false)]
fn merge_one_exec(m1: Vec<(String, Value)>, kv: (String, Value)) -> (r: Vec<(String, Value)>)
    ensures
        entries_view(r@) == merge_one(entries_view(m1@), (kv.0@, value_view(kv.1))),
    decreases kv,
{
    let ghost e1 = entries_view(m1@);
    let ghost entry = (kv.0@, value_view(kv.1));
    proof {
        lemma_entries_view(m1@);
        lemma_index_of_key(e1, entry.0);
    }
    let (key, val) = kv;
    let mut m1 = m1;
    let mut i: usize = 0;
    while i < m1.len()
        invariant
            i <= m1.len(),
            e1 == entries_view(m1@),
            e1.len() == m1@.len(),
            forall|j: int| 0 <= j < m1@.len() ==> e1[j] == (m1@[j].0@, value_view(m1@[j].1)),
            forall|j: int| 0 <= j < i ==> e1[j].0 != entry.0,
        decreases m1.len() - i,
    {
        if m1[i].0.eq(&key) {
            proof {
                assert(e1[i as int].0 == entry.0);
                assert(index_of_key(e1, entry.0) == i);
            }
            let (k0, v0) = m1.remove(i);
            proof {
                assert(decreases_to!(kv => val));
            }
            let merged = v0.merge(val);
            let ghost mid = m1@;
            m1.insert(i, (k0, merged));
            proof {
                lemma_entries_view(m1@);
                assert(m1@ =~= mid.insert(i as int, (k0, merged)));
                assert(entries_view(m1@) =~= e1.update(
                    i as int,
                    (e1[i as int].0, merge_value(e1[i as int].1, entry.1)),
                ));
            }
            return m1;
        }
        i += 1;
    }
    proof {
        assert(index_of_key(e1, entry.0) == -1) by {
            if index_of_key(e1, entry.0) != -1 {
                lemma_index_of_key(e1, entry.0);
            }
        };
    }
    m1.push((key, val));
    proof {
        lemma_entries_view(m1@);
        assert(entries_view(m1@) =~= e1.push(entry));
    }
    m1
}

/// A leaf wrapped by one addressing step: a single-key map or a
/// single-element array.
pub open spec fn wrap_part(p: NamePartView, v: ValueView) -> ValueView {
    match p {
        NamePartView::Mapping(name) => ValueView::Mapping(seq![(name, v)]),
        NamePartView::Array => ValueView::Array(seq![v]),
    }
}

/// A leaf wrapped by a whole path, innermost step last, so the wrapped
/// shape mirrors the path.
pub open spec fn wrap_value(path: Seq<NamePartView>, leaf: ValueView) -> ValueView
    decreases path.len(),
{
    if path.len() == 0 {
        leaf
    } else {
        wrap_part(path[0], wrap_value(path.drop_first(), leaf))
    }
}

/// Wrapping under a path extended at the inner end wraps the wrapped leaf.
pub proof fn lemma_wrap_snoc(path: Seq<NamePartView>, p: NamePartView, leaf: ValueView)
    ensures
        wrap_value(path.push(p), leaf) == wrap_value(path, wrap_part(p, leaf)),
    decreases path.len(),
{
    if path.len() == 0 {
        assert(path.push(p).drop_first() =~= Seq::<NamePartView>::empty());
    } else {
        assert(path.push(p).drop_first() =~= path.drop_first().push(p));
        lemma_wrap_snoc(path.drop_first(), p, leaf);
    }
}

/// The accumulator after folding a sequence of accepted fields into it:
/// each leaf is wrapped by its path and merged, in arrival order.
pub open spec fn consolidate_from(
    acc: ValueView,
    entries: Seq<(Seq<NamePartView>, ContentView)>,
) -> ValueView
    decreases entries.len(),
{
    if entries.len() == 0 {
        acc
    } else {
        consolidate_from(
            merge_value(acc, wrap_value(entries[0].0, content_value(entries[0].1))),
            entries.drop_first(),
        )
    }
}

/// The final value of a whole accepted form: every field folded into an
/// initially empty top-level map.
pub open spec fn consolidated(entries: Seq<(Seq<NamePartView>, ContentView)>) -> ValueView {
    consolidate_from(ValueView::Mapping(Seq::empty()), entries)
}

/// Merging values of mismatched shapes keeps the left value unchanged and
/// raises no error: the mismatched right-hand value is silently dropped.
pub proof fn lemma_mismatched_merge_is_dropped(a: ValueView, b: ValueView)
    requires
        !(a is Mapping && b is Mapping),
        !(a is Array && b is Array),
    ensures
        merge_value(a, b) == a,
{
}

/// Folding fields into a map-shaped accumulator keeps it map-shaped.
pub proof fn lemma_consolidate_from_mapping(
    acc: ValueView,
    entries: Seq<(Seq<NamePartView>, ContentView)>,
)
    requires
        acc is Mapping,
    ensures
        consolidate_from(acc, entries) is Mapping,
    decreases entries.len(),
{
    if entries.len() > 0 {
        let merged = merge_value(acc, wrap_value(entries[0].0, content_value(entries[0].1)));
        assert(merged is Mapping);
        lemma_consolidate_from_mapping(merged, entries.drop_first());
    }
}

/// The consolidated value of a whole form is always a map at top level,
/// whatever fields it holds.
pub proof fn lemma_consolidated_is_mapping(entries: Seq<(Seq<NamePartView>, ContentView)>)
    ensures
        consolidated(entries) is Mapping,
{
    lemma_consolidate_from_mapping(ValueView::Mapping(Seq::empty()), entries);
}

/// Wrap a leaf value in the maps and arrays its path prescribes, innermost
/// step last.
fn wrap_exec(path: Vec<NamePart>, leaf: Value) -> (r: Value)
    ensures
        r@ == wrap_value(path.deep_view(), leaf@),
{
    let ghost full = path.deep_view();
    let mut path = path;
    let mut acc = leaf;
    while path.len() > 0
        invariant
            wrap_value(path.deep_view(), acc@) == wrap_value(full, leaf@),
        decreases path.len(),
    {
        let ghost before = path.deep_view();
        let p = path.pop().unwrap();
        proof {
            assert(before =~= path.deep_view().push(p@));
            lemma_wrap_snoc(path.deep_view(), p@, acc@);
        }
        acc = match p {
            NamePart::Mapping(name) => {
                let mut entries: Vec<(String, Value)> = Vec::new();
                entries.push((name, acc));
                proof {
                    assert(entries_view(entries@.drop_last()) =~= Seq::<
                        (Seq<char>, ValueView),
                    >::empty());
                    assert(entries_view(entries@) =~= seq![(name@, acc@)]);
                }
                Value::Mapping(entries)
            },
            NamePart::Array => {
                let mut items: Vec<Value> = Vec::new();
                items.push(acc);
                proof {
                    assert(values_view(items@.drop_last()) =~= Seq::<ValueView>::empty());
                    assert(values_view(items@) =~= seq![acc@]);
                }
                Value::Array(items)
            },
        };
    }
    proof {
        assert(path.deep_view() =~= Seq::<NamePartView>::empty());
    }
    acc
}

/// The address-and-payload pairs of a form, as mathematical shapes.
pub open spec fn form_view(mf: Seq<MultipartHash>) -> Seq<(Seq<NamePartView>, ContentView)> {
    mf.map_values(|h: MultipartHash| (h.0.deep_view(), h.1@))
}

/// Assemble the final value of an accepted form: each field's payload is
/// wrapped by its path and merged into an initially empty top-level map, in
/// arrival order. Fields whose wrapped shape collides with an
/// incompatible shape already in place are silently dropped.
pub fn consolidate(mf: MultipartForm) -> (r: Value)
    ensures
        r@ == consolidated(form_view(mf@)),
{
    let ghost full = form_view(mf@);
    let mut mf = mf;
    let mut acc = Value::Mapping(Vec::new());
    proof {
        assert(entries_view(Seq::<(String, Value)>::empty()) =~= Seq::<
            (Seq<char>, ValueView),
        >::empty());
        assert(consolidate_from(acc@, form_view(mf@)) == consolidated(full));
    }
    while mf.len() > 0
        invariant
            consolidate_from(acc@, form_view(mf@)) == consolidated(full),
        decreases mf.len(),
    {
        let ghost before = form_view(mf@);
        let (path, content) = mf.remove(0);
        proof {
            assert(form_view(mf@) =~= before.drop_first());
            assert(before[0] == (path.deep_view(), content@));
        }
        let leaf = Value::from(content);
        let wrapped = wrap_exec(path, leaf);
        acc = acc.merge(wrapped);
    }
    proof {
        assert(form_view(mf@) =~= Seq::<(Seq<NamePartView>, ContentView)>::empty());
    }
    acc
}

} // verus!
