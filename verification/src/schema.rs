//! The declared schema of a form and its matching engine.
//!
//! A schema is a tree of fields: scalar leaves, file leaves carrying a
//! filename generator, arrays and nested maps. It is built once through
//! [`Form`] and then only read: each incoming part's parsed name path is
//! matched against it by recursive descent, yielding the terminator that
//! says how the part's body is to be handled.

use std::sync::Arc;
use vstd::prelude::*;

use crate::name::NamePart;
use crate::name::NamePartView;

verus! {

/// A producer of storage paths for uploaded files.
///
/// The generator is called once per accepted file part, with the part's
/// declared media type, and answers the path the upload is to be stored
/// under; answering `None` makes the decode fail with a generation error.
/// A generator shared by concurrent decodes must tolerate concurrent
/// calls, and should produce distinct paths across calls to avoid silent
/// overwrites — neither is enforced here.
pub trait FilenameGenerator {
    fn next_filename(&self, mime_type: &str) -> Option<String>;
}

/// One node of the declared schema: what a field of the form may be.
pub enum Field<G> {
    Array(Array<G>),
    File(Arc<G>),
    Mapping(MapField<G>),
    Int,
    Float,
    Text,
    Bytes,
}

/// A schema node holding uniformly typed, array-addressed elements.
pub struct Array<G> {
    pub inner: Box<Field<G>>,
}

/// A schema node holding key-addressed child fields, in declaration order.
pub struct MapField<G> {
    pub inner: Vec<(String, Field<G>)>,
}

/// The resolved leaf classification of a matched name path: how the part's
/// body is to be handled.
pub enum FieldTerminator<G> {
    File(Arc<G>),
    Bytes,
    Int,
    Float,
    Text,
}

/// The bare kind of a terminator, with the generator abstracted away.
pub enum TermView {
    File,
    Bytes,
    Int,
    Float,
    Text,
}

/// The kind of a resolved terminator.
pub open spec fn term_view<G>(t: FieldTerminator<G>) -> TermView {
    match t {
        FieldTerminator::File(_) => TermView::File,
        FieldTerminator::Bytes => TermView::Bytes,
        FieldTerminator::Int => TermView::Int,
        FieldTerminator::Float => TermView::Float,
        FieldTerminator::Text => TermView::Text,
    }
}

/// The terminator a path resolves to under a schema node, by recursive
/// descent: an array node consumes an array step, a map node consumes a
/// map step whose key first matches a child (in declaration order), and a
/// leaf matches exactly the empty remainder. A file leaf resolves to a
/// terminator carrying that leaf's own generator.
pub open spec fn match_field<G>(f: Field<G>, path: Seq<NamePartView>) -> Option<FieldTerminator<G>>
    decreases f,
{
    match f {
        Field::Array(arr) => {
            if path.len() == 0 {
                None
            } else {
                match path[0] {
                    NamePartView::Array => match_field(*arr.inner, path.drop_first()),
                    NamePartView::Mapping(_) => None,
                }
            }
        },
        Field::Mapping(m) => map_match(m, path),
        Field::File(gen) => if path.len() == 0 {
            Some(FieldTerminator::File(gen))
        } else {
            None
        },
        Field::Int => if path.len() == 0 {
            Some(FieldTerminator::Int)
        } else {
            None
        },
        Field::Float => if path.len() == 0 {
            Some(FieldTerminator::Float)
        } else {
            None
        },
        Field::Text => if path.len() == 0 {
            Some(FieldTerminator::Text)
        } else {
            None
        },
        Field::Bytes => if path.len() == 0 {
            Some(FieldTerminator::Bytes)
        } else {
            None
        },
    }
}

/// The terminator a path resolves to under a map node: the first step must
/// be a map step, and its key selects the first child declared under it.
pub open spec fn map_match<G>(m: MapField<G>, path: Seq<NamePartView>) -> Option<
    FieldTerminator<G>,
>
    decreases m,
{
    if path.len() == 0 {
        None
    } else {
        match path[0] {
            NamePartView::Mapping(key) => children_match(m.inner@, key, path.drop_first()),
            NamePartView::Array => None,
        }
    }
}

/// The terminator the remaining path resolves to under the first child
/// whose key equals `key`; duplicate keys after the first are shadowed.
pub open spec fn children_match<G>(
    children: Seq<(String, Field<G>)>,
    key: Seq<char>,
    rest: Seq<NamePartView>,
) -> Option<FieldTerminator<G>>
    decreases children,
{
    if children.len() == 0 {
        None
    } else if children[0].0@ == key {
        match_field(children[0].1, rest)
    } else {
        children_match(children.drop_first(), key, rest)
    }
}

/// Skipping children whose keys all differ from `key` does not change the
/// match.
pub proof fn lemma_children_skip<G>(
    children: Seq<(String, Field<G>)>,
    key: Seq<char>,
    rest: Seq<NamePartView>,
    i: int,
)
    requires
        0 <= i <= children.len(),
        forall|j: int| 0 <= j < i ==> children[j].0@ != key,
    ensures
        children_match(children, key, rest) == children_match(children.skip(i), key, rest),
    decreases i,
{
    if i > 0 {
        assert(children.drop_first() =~= children.skip(1));
        lemma_children_skip(children.drop_first(), key, rest, i - 1);
        assert(children.drop_first().skip(i - 1) =~= children.skip(i));
    } else {
        assert(children.skip(0) =~= children);
    }
}

/// Relies on `std::sync::Arc::clone`: the clone is the same shared value.
#[verifier::external_body]
fn arc_clone<T>(a: &Arc<T>) -> (r: Arc<T>)
    ensures
        r == *a,
{
    Arc::clone(a)
}

impl<G> Field<G> {
    /// A file field: uploads matching it are routed through the given
    /// filename generator.
    pub fn file(gen: G) -> (r: Self)
        ensures
            r matches Field::File(g) && g == gen,
    {
        Field::File(Arc::new(gen))
    }

    /// A text field.
    pub fn text() -> (r: Self)
        ensures
            r == Field::<G>::Text,
    {
        Field::Text
    }

    /// An integer field.
    pub fn integer() -> (r: Self)
        ensures
            r == Field::<G>::Int,
    {
        Field::Int
    }

    /// A float field.
    pub fn float() -> (r: Self)
        ensures
            r == Field::<G>::Float,
    {
        Field::Float
    }

    /// A raw-bytes field.
    pub fn bytes() -> (r: Self)
        ensures
            r == Field::<G>::Bytes,
    {
        Field::Bytes
    }

    /// An array of uniformly typed elements.
    pub fn array(field: Field<G>) -> (r: Self)
        ensures
            r matches Field::Array(a) && *a.inner == field,
    {
        Field::Array(Array { inner: Box::new(field) })
    }

    /// A builder for a map of key-addressed child fields.
    pub fn map() -> (r: MapField<G>)
        ensures
            r.inner@ == Seq::<(String, Field<G>)>::empty(),
    {
        MapField { inner: Vec::new() }
    }

    /// The terminator the path from `from` on resolves to under this node:
    /// exactly what the matching spec says, generator included.
    pub fn valid_field(&self, path: &Vec<NamePart>, from: usize) -> (r: Option<
        FieldTerminator<G>,
    >)
        requires
            from <= path@.len(),
        ensures
            r == match_field(*self, path.deep_view().skip(from as int)),
        decreases self,
    {
        match self {
            Field::Array(arr) => arr.valid_field(path, from),
            Field::Mapping(m) => m.valid_field(path, from),
            Field::File(gen) => {
                if from == path.len() {
                    Some(FieldTerminator::File(arc_clone(gen)))
                } else {
                    None
                }
            },
            Field::Int => {
                if from == path.len() {
                    Some(FieldTerminator::Int)
                } else {
                    None
                }
            },
            Field::Float => {
                if from == path.len() {
                    Some(FieldTerminator::Float)
                } else {
                    None
                }
            },
            Field::Text => {
                if from == path.len() {
                    Some(FieldTerminator::Text)
                } else {
                    None
                }
            },
            Field::Bytes => {
                if from == path.len() {
                    Some(FieldTerminator::Bytes)
                } else {
                    None
                }
            },
        }
    }
}

impl<G> Array<G> {
    /// The terminator the path from `from` on resolves to under this array
    /// node.
    pub fn valid_field(&self, path: &Vec<NamePart>, from: usize) -> (r: Option<
        FieldTerminator<G>,
    >)
        requires
            from <= path@.len(),
        ensures
            r == match_field(
                Field::Array(Array { inner: self.inner }),
                path.deep_view().skip(from as int),
            ),
        decreases self,
    {
        if from == path.len() {
            return None;
        }
        proof {
            let dv = path.deep_view();
            assert(dv.skip(from as int)[0] == path@[from as int]@);
            assert(dv.skip(from as int).drop_first() =~= dv.skip(from as int + 1));
        }
        match &path[from] {
            NamePart::Array => self.inner.valid_field(path, from + 1),
            NamePart::Mapping(_) => None,
        }
    }
}

impl<G> MapField<G> {
    /// Append a child field under a key; a key equal to an earlier one is
    /// shadowed by the first and never matched.
    pub fn field(self, key: &str, value: Field<G>) -> (r: Self)
        ensures
            r.inner@.len() == self.inner@.len() + 1,
            forall|i: int| 0 <= i < self.inner@.len() ==> r.inner@[i] == self.inner@[i],
            r.inner@.last().0@ == key@,
            r.inner@.last().1 == value,
    {
        let mut inner = self.inner;
        inner.push((key.to_owned(), value));
        MapField { inner }
    }

    /// Close the builder into a map schema node.
    pub fn finalize(self) -> (r: Field<G>)
        ensures
            r matches Field::Mapping(m) && m.inner == self.inner,
    {
        Field::Mapping(self)
    }

    /// The terminator the path from `from` on resolves to under this map
    /// node.
    #[verifier::loop_isolation(false)]
    pub fn valid_field(&self, path: &Vec<NamePart>, from: usize) -> (r: Option<
        FieldTerminator<G>,
    >)
        requires
            from <= path@.len(),
        ensures
            r == map_match(MapField { inner: self.inner }, path.deep_view().skip(from as int)),
        decreases self,
    {
        if from == path.len() {
            return None;
        }
        proof {
            let dv = path.deep_view();
            assert(dv.skip(from as int)[0] == path@[from as int]@);
            assert(dv.skip(from as int).drop_first() =~= dv.skip(from as int + 1));
        }
        let key = match &path[from] {
            NamePart::Mapping(k) => k,
            NamePart::Array => {
                return None;
            },
        };
        let ghost rest = path.deep_view().skip(from as int + 1);
        let mut i: usize = 0;
        while i < self.inner.len()
            invariant
                0 <= i <= self.inner@.len(),
                forall|j: int| 0 <= j < i ==> self.inner@[j].0@ != key@,
            decreases self.inner@.len() - i,
        {
            if self.inner[i].0.eq(key) {
                proof {
                    lemma_children_skip(self.inner@, key@, rest, i as int);
                    assert(self.inner@.skip(i as int)[0] == self.inner@[i as int]);
                    assert(decreases_to!(self => self.inner@[i as int].1));
                }
                return self.inner[i].1.valid_field(path, from + 1);
            }
            i += 1;
        }
        proof {
            lemma_children_skip(self.inner@, key@, rest, self.inner@.len() as int);
            assert(self.inner@.skip(self.inner@.len() as int) =~= Seq::<
                (String, Field<G>),
            >::empty());
        }
        None
    }
}

/// The declared fields of a form together with its resource limits.
///
/// The count limits are enforced strictly: a decode accepts at most
/// `max_fields - 1` scalar fields and at most `max_files - 1` file uploads.
pub struct Form<G> {
    pub max_fields: u32,
    pub max_field_size: usize,
    pub max_files: u32,
    pub max_file_size: usize,
    pub inner: MapField<G>,
}

impl<G> Form<G> {
    /// A form with no fields and the default limits.
    pub fn new() -> (r: Self)
        ensures
            r.max_fields == 100,
            r.max_field_size == 10000,
            r.max_files == 20,
            r.max_file_size == 10000000,
            r.inner.inner@ == Seq::<(String, Field<G>)>::empty(),
    {
        Form {
            max_fields: 100,
            max_field_size: 10_000,
            max_files: 20,
            max_file_size: 10_000_000,
            inner: MapField { inner: Vec::new() },
        }
    }

    /// Replace the limit on the number of scalar fields.
    pub fn max_fields(self, max: u32) -> (r: Self)
        ensures
            r.max_fields == max,
            r.max_field_size == self.max_field_size,
            r.max_files == self.max_files,
            r.max_file_size == self.max_file_size,
            r.inner == self.inner,
    {
        Form { max_fields: max, ..self }
    }

    /// Replace the limit on the byte size of one scalar field.
    pub fn max_field_size(self, max: usize) -> (r: Self)
        ensures
            r.max_fields == self.max_fields,
            r.max_field_size == max,
            r.max_files == self.max_files,
            r.max_file_size == self.max_file_size,
            r.inner == self.inner,
    {
        Form { max_field_size: max, ..self }
    }

    /// Replace the limit on the number of file uploads.
    pub fn max_files(self, max: u32) -> (r: Self)
        ensures
            r.max_fields == self.max_fields,
            r.max_field_size == self.max_field_size,
            r.max_files == max,
            r.max_file_size == self.max_file_size,
            r.inner == self.inner,
    {
        Form { max_files: max, ..self }
    }

    /// Replace the limit on the byte size of one file upload.
    pub fn max_file_size(self, max: usize) -> (r: Self)
        ensures
            r.max_fields == self.max_fields,
            r.max_field_size == self.max_field_size,
            r.max_files == self.max_files,
            r.max_file_size == max,
            r.inner == self.inner,
    {
        Form { max_file_size: max, ..self }
    }

    /// Declare a field of the form under a name.
    pub fn field(self, name: &str, field: Field<G>) -> (r: Self)
        ensures
            r.max_fields == self.max_fields,
            r.max_field_size == self.max_field_size,
            r.max_files == self.max_files,
            r.max_file_size == self.max_file_size,
            r.inner.inner@.len() == self.inner.inner@.len() + 1,
            forall|i: int|
                0 <= i < self.inner.inner@.len() ==> r.inner.inner@[i] == self.inner.inner@[i],
            r.inner.inner@.last().0@ == name@,
            r.inner.inner@.last().1 == field,
    {
        let inner = self.inner.field(name, field);
        Form { inner, ..self }
    }

    /// The terminator a parsed name path resolves to under this form's
    /// schema, or `None` when the path fits no declared field. Matching is
    /// a pure function of the schema and the path: the result is exactly
    /// what the matching spec says, the resolved generator included.
    pub fn valid_field(&self, path: &Vec<NamePart>) -> (r: Option<FieldTerminator<G>>)
        ensures
            r == map_match(MapField { inner: self.inner.inner }, path.deep_view()),
    {
        let r = self.inner.valid_field(path, 0);
        proof {
            assert(path.deep_view().skip(0) =~= path.deep_view());
        }
        r
    }
}

} // verus!
