//! The per-part handler, the aggregator and the top-level decode.
//!
//! Each part of a multipart body is handled by one pass through a small
//! state machine: its Content-Disposition is parsed, its name path
//! resolved against the schema, and its body either checked and recorded
//! as a file upload or buffered and parsed as a scalar. The accepted
//! results are counted against the form's limits and consolidated into the
//! final value tree. The first failure of any part aborts the whole
//! decode.

use vstd::prelude::*;
use vstd::utf8::decode_utf8;
use vstd::utf8::valid_utf8;

use crate::buf::buffer_extend;
use crate::buf::buffer_freeze;
use crate::buf::buffer_len;
use crate::buf::buffer_new;
use crate::buf::buffer_to_vec;
use crate::buf::buffer_view;
use crate::buf::bytes_view;
use crate::buf::chunk_len;
use crate::buf::vec_to_text;
use crate::disposition::disposition_of;
use crate::disposition::parse_content_disposition;
use crate::error::Error;
use crate::name::name_parse_ok;
use crate::name::parse_multipart_name;
use crate::name::parsed_name;
use crate::name::NamePart;
use crate::name::NamePartView;
use crate::numeric::check_float;
use crate::numeric::float_literal_ok;
use crate::numeric::int_literal_parse;
use crate::numeric::parse_i64;
use crate::numeric::trim_ws;
use crate::numeric::ws_trimmed;
use crate::schema::map_match;
use crate::schema::term_view;
use crate::schema::FieldTerminator;
use crate::schema::FilenameGenerator;
use crate::schema::Form;
use crate::schema::TermView;
use crate::value::consolidate;
use crate::value::consolidated;
use crate::value::ContentView;
use crate::value::MultipartContent;
use crate::value::MultipartForm;
use crate::value::Value;

verus! {

/// The byte contents of a sequence of body chunks.
pub open spec fn chunks_view(chunks: Seq<bytes::Bytes>) -> Seq<Seq<u8>> {
    chunks.map_values(|b: bytes::Bytes| bytes_view(b))
}

/// The bytes of a part's body: its chunks in arrival order.
pub open spec fn concat_chunks(chunks: Seq<Seq<u8>>) -> Seq<u8>
    decreases chunks.len(),
{
    if chunks.len() == 0 {
        Seq::empty()
    } else {
        concat_chunks(chunks.drop_last()) + chunks.last()
    }
}

/// A body never shrinks as chunks arrive.
pub proof fn lemma_concat_grows(chunks: Seq<Seq<u8>>, k: int)
    requires
        0 <= k <= chunks.len(),
    ensures
        concat_chunks(chunks).len() >= concat_chunks(chunks.subrange(0, k)).len(),
    decreases chunks.len(),
{
    if chunks.len() == 0 || k == chunks.len() {
        assert(chunks.subrange(0, k) =~= chunks);
    } else {
        lemma_concat_grows(chunks.drop_last(), k);
        assert(chunks.drop_last().subrange(0, k) =~= chunks.subrange(0, k));
    }
}

/// Whether a scalar body passes the field size limit: the check runs
/// before each chunk is appended and rejects as soon as the buffer would
/// meet or exceed the limit, so a non-empty body passes exactly when it is
/// strictly below the limit.
pub open spec fn field_size_ok(chunks: Seq<Seq<u8>>, max: int) -> bool {
    chunks.len() == 0 || concat_chunks(chunks).len() < max
}

/// What a scalar part decodes to: its buffered body checked against the
/// size limit, then read as raw bytes, text, an integer or a float
/// according to the resolved terminator. A file terminator classifies the
/// part as mis-typed.
pub open spec fn form_data_spec(chunks: Seq<Seq<u8>>, term: TermView, max: int) -> Result<
    ContentView,
    Error,
> {
    if !field_size_ok(chunks, max) {
        Err(Error::FieldSize)
    } else {
        let data = concat_chunks(chunks);
        if term is Bytes {
            Ok(ContentView::Bytes(data))
        } else if !valid_utf8(data) {
            Err(Error::ParseField)
        } else {
            let text = decode_utf8(data);
            match term {
                TermView::File => Err(Error::FieldType),
                TermView::Bytes => Err(Error::FieldType),
                TermView::Text => Ok(ContentView::Text(text)),
                TermView::Int => match int_literal_parse(ws_trimmed(text)) {
                    Some(v) => Ok(ContentView::Int(v)),
                    None => Err(Error::ParseInt),
                },
                TermView::Float => if float_literal_ok(ws_trimmed(text)) {
                    Ok(ContentView::Float(ws_trimmed(text)))
                } else {
                    Err(Error::ParseFloat)
                },
            }
        }
    }
}

/// Decode a scalar part's body chunks under a resolved terminator.
///
/// The body is buffered chunk by chunk, rejecting with a field-size error
/// as soon as appending a chunk would meet or exceed `max_field_size`; the
/// complete buffer is then read as the terminator prescribes, exactly as
/// [`form_data_spec`] states.
#[verifier::loop_isolation(false)]
pub fn handle_form_data<G>(
    chunks: &Vec<bytes::Bytes>,
    term: &FieldTerminator<G>,
    max_field_size: usize,
) -> (r: Result<MultipartContent, Error>)
    ensures
        ({
            let m = form_data_spec(chunks_view(chunks@), term_view(*term), max_field_size as int);
            match r {
                Ok(c) => m == Ok::<ContentView, Error>(c@),
                Err(e) => m == Err::<ContentView, Error>(e),
            }
        }),
{
    let ghost cv = chunks_view(chunks@);
    let mut acc = buffer_new();
    let mut i: usize = 0;
    while i < chunks.len()
        invariant
            0 <= i <= chunks@.len(),
            buffer_view(acc) == concat_chunks(cv.subrange(0, i as int)),
            i > 0 ==> buffer_view(acc).len() < max_field_size,
        decreases chunks@.len() - i,
    {
        let cl = chunk_len(&chunks[i]);
        let bl = buffer_len(&acc);
        proof {
            assert(cv.subrange(0, i + 1).drop_last() =~= cv.subrange(0, i as int));
            assert(cv.subrange(0, i + 1).last() == bytes_view(chunks@[i as int]));
        }
        if bl < max_field_size && cl < max_field_size - bl {
            buffer_extend(&mut acc, &chunks[i]);
        } else {
            proof {
                lemma_concat_grows(cv, i + 1);
                assert(concat_chunks(cv).len() >= max_field_size);
            }
            return Err(Error::FieldSize);
        }
        i += 1;
    }
    proof {
        assert(cv.subrange(0, cv.len() as int) =~= cv);
        assert(field_size_ok(cv, max_field_size as int));
    }
    match term {
        FieldTerminator::Bytes => Ok(MultipartContent::Bytes(buffer_freeze(acc))),
        _ => {
            let raw = buffer_to_vec(&acc);
            match vec_to_text(raw) {
                None => Err(Error::ParseField),
                Some(text) => match term {
                    FieldTerminator::File(_) => Err(Error::FieldType),
                    FieldTerminator::Bytes => Err(Error::FieldType),
                    FieldTerminator::Text => Ok(MultipartContent::Text(text)),
                    FieldTerminator::Int => {
                        let t = trim_ws(text.as_str());
                        match parse_i64(t) {
                            Some(v) => Ok(MultipartContent::Int(v)),
                            None => Err(Error::ParseInt),
                        }
                    },
                    FieldTerminator::Float => {
                        let t = trim_ws(text.as_str());
                        if check_float(t) {
                            Ok(MultipartContent::Float(t.to_owned()))
                        } else {
                            Err(Error::ParseFloat)
                        }
                    },
                },
            }
        },
    }
}

/// The base filename after the last `/` of the declared filename; any
/// directory components before it are discarded.
pub open spec fn filename_base(s: Seq<char>) -> Seq<char>
    decreases s.len(),
{
    if s.len() == 0 || s.last() == '/' {
        Seq::empty()
    } else {
        filename_base(s.drop_last()).push(s.last())
    }
}

/// Whether a declared filename yields a usable base name: the part after
/// the last `/` must be non-empty and must not be a relative-path
/// component, which guards against path traversal.
pub open spec fn filename_ok(s: Seq<char>) -> bool {
    let b = filename_base(s);
    b.len() > 0 && b != seq!['.'] && b != seq!['.', '.']
}

/// When no `/` occurs at or after `cut` and a `/` sits just before it, the
/// base name is exactly the suffix from `cut`.
proof fn lemma_filename_base(s: Seq<char>, cut: int)
    requires
        0 <= cut <= s.len(),
        forall|k: int| cut <= k < s.len() ==> s[k] != '/',
        cut > 0 ==> s[cut - 1] == '/',
    ensures
        filename_base(s) =~= s.subrange(cut, s.len() as int),
    decreases s.len(),
{
    if cut == s.len() {
        if s.len() > 0 {
            assert(s.last() == '/');
        }
    } else {
        assert(s.last() != '/');
        lemma_filename_base(s.drop_last(), cut);
        assert(s.drop_last().subrange(cut, s.len() - 1) =~= s.subrange(cut, s.len() - 1));
    }
}

/// Extract the base filename of a file part's declared filename.
///
/// Fails with a filename error when no filename was declared, or when the
/// base left after discarding directory components is empty, `.` or `..`.
#[verifier::loop_isolation(false)]
pub fn check_filename(filename: Option<String>) -> (r: Result<String, Error>)
    ensures
        match filename {
            None => r == Err::<String, Error>(Error::Filename),
            Some(f) => {
                if filename_ok(f@) {
                    r matches Ok(b) && b@ == filename_base(f@)
                } else {
                    r == Err::<String, Error>(Error::Filename)
                }
            },
        },
{
    let f = match filename {
        Some(f) => f,
        None => {
            return Err(Error::Filename);
        },
    };
    let s = f.as_str();
    let n = s.unicode_len();
    let mut cut: usize = n;
    while cut > 0 && s.get_char(cut - 1) != '/'
        invariant
            0 <= cut <= n,
            forall|k: int| cut <= k < n ==> s@[k] != '/',
        decreases cut,
    {
        cut -= 1;
    }
    proof {
        lemma_filename_base(s@, cut as int);
    }
    let base = s.substring_char(cut, n);
    let m = base.unicode_len();
    if m == 0 {
        return Err(Error::Filename);
    }
    if m == 1 && base.get_char(0) == '.' {
        proof {
            assert(base@ =~= seq!['.']);
        }
        return Err(Error::Filename);
    }
    if m == 2 && base.get_char(0) == '.' && base.get_char(1) == '.' {
        proof {
            assert(base@ =~= seq!['.', '.']);
        }
        return Err(Error::Filename);
    }
    proof {
        if base@ == seq!['.'] {
            assert(base@.len() == 1 && base@[0] == '.');
        }
        if base@ == seq!['.', '.'] {
            assert(base@.len() == 2 && base@[0] == '.' && base@[1] == '.');
        }
    }
    Ok(base.to_owned())
}

/// Account one body chunk against the file size limit.
///
/// `count` bytes are already written; accepting the chunk must not push
/// the total past `max_file_size`.
pub fn check_file_size(count: usize, chunk_len: usize, max_file_size: usize) -> (r: Result<
    usize,
    Error,
>)
    requires
        count <= max_file_size,
    ensures
        match r {
            Ok(c) => c == count + chunk_len && count + chunk_len <= max_file_size,
            Err(e) => e == Error::FileSize && count + chunk_len > max_file_size,
        },
{
    if chunk_len <= max_file_size - count {
        Ok(count + chunk_len)
    } else {
        Err(Error::FileSize)
    }
}

/// What handling a file part may yield. The stored path is whatever the
/// filename generator answered, so it is not a function of the inputs:
/// every outcome either reports the one error the inputs force, reports
/// the generator's refusal, or carries the base filename with some stored
/// path.
pub open spec fn file_upload_rel(
    chunks: Seq<Seq<u8>>,
    filename: Option<Seq<char>>,
    max: int,
    r: Result<ContentView, Error>,
) -> bool {
    match filename {
        None => r == Err::<ContentView, Error>(Error::Filename),
        Some(f) => {
            if !filename_ok(f) {
                r == Err::<ContentView, Error>(Error::Filename)
            } else {
                ||| r == Err::<ContentView, Error>(Error::GenFilename)
                ||| (if concat_chunks(chunks).len() > max {
                    r == Err::<ContentView, Error>(Error::FileSize)
                } else {
                    r matches Ok(c) && c matches ContentView::File { filename: fb, stored_as: _ }
                        && fb == filename_base(f)
                })
            }
        },
    }
}

/// Handle a file part: resolve its base filename, obtain a storage path
/// from the filename generator, and check its body against the file size
/// limit.
///
/// This performs no storage I/O; the caller streams the body chunks to the
/// stored path after this check, re-counting them with
/// [`check_file_size`]. Bytes already written when a later chunk
/// overflows the limit are the caller's to leave in place.
#[verifier::loop_isolation(false)]
pub fn handle_file_upload<G: FilenameGenerator>(
    chunks: &Vec<bytes::Bytes>,
    gen: &std::sync::Arc<G>,
    filename: Option<String>,
    content_type: &str,
    max_file_size: usize,
) -> (r: Result<MultipartContent, Error>)
    ensures
        ({
            let fv = match filename {
                Some(f) => Some(f@),
                None => None,
            };
            match r {
                Ok(c) => file_upload_rel(
                    chunks_view(chunks@),
                    fv,
                    max_file_size as int,
                    Ok(c@),
                ),
                Err(e) => file_upload_rel(
                    chunks_view(chunks@),
                    fv,
                    max_file_size as int,
                    Err(e),
                ),
            }
        }),
{
    let ghost cv = chunks_view(chunks@);
    let base = match check_filename(filename) {
        Ok(b) => b,
        Err(e) => {
            return Err(e);
        },
    };
    let stored_as = match gen.next_filename(content_type) {
        Some(p) => p,
        None => {
            return Err(Error::GenFilename);
        },
    };
    let mut count: usize = 0;
    let mut i: usize = 0;
    while i < chunks.len()
        invariant
            0 <= i <= chunks@.len(),
            count == concat_chunks(cv.subrange(0, i as int)).len(),
            count <= max_file_size,
        decreases chunks@.len() - i,
    {
        let cl = chunk_len(&chunks[i]);
        proof {
            assert(cv.subrange(0, i + 1).drop_last() =~= cv.subrange(0, i as int));
            assert(cv.subrange(0, i + 1).last() == bytes_view(chunks@[i as int]));
        }
        match check_file_size(count, cl, max_file_size) {
            Ok(c) => {
                count = c;
            },
            Err(e) => {
                proof {
                    lemma_concat_grows(cv, i + 1);
                }
                return Err(e);
            },
        }
        i += 1;
    }
    proof {
        assert(cv.subrange(0, cv.len() as int) =~= cv);
    }
    Ok(MultipartContent::File { filename: base, stored_as })
}

/// One decoded part of a multipart body, as the part-decoding collaborator
/// hands it over: its Content-Disposition header text (absent or
/// undecodable headers arrive as `None`), its declared media type, and its
/// body as byte chunks in arrival order.
pub struct Part {
    pub content_disposition: Option<String>,
    pub content_type: String,
    pub body: Vec<bytes::Bytes>,
}

/// The mathematical shape of a [`Part`].
pub struct PartView {
    pub content_disposition: Option<Seq<char>>,
    pub content_type: Seq<char>,
    pub body: Seq<Seq<u8>>,
}

impl View for Part {
    type V = PartView;

    open spec fn view(&self) -> PartView {
        PartView {
            content_disposition: match &self.content_disposition {
                Some(s) => Some(s@),
                None => None,
            },
            content_type: self.content_type@,
            body: chunks_view(self.body@),
        }
    }
}

/// One item of a multipart stream: a field part, or a nested multipart
/// body whose inner parts are flattened into the same stream.
pub enum PartItem {
    Field(Part),
    Nested(Vec<PartItem>),
}

/// The mathematical shape of a [`PartItem`].
pub enum PartItemView {
    Field(PartView),
    Nested(Seq<PartItemView>),
}

/// The shape of one stream item.
pub open spec fn part_item_view(p: PartItem) -> PartItemView
    decreases p,
{
    match p {
        PartItem::Field(part) => PartItemView::Field(part@),
        PartItem::Nested(sub) => PartItemView::Nested(items_view(sub@)),
    }
}

/// The shapes of a sequence of stream items, in order.
pub open spec fn items_view(items: Seq<PartItem>) -> Seq<PartItemView>
    decreases items,
{
    if items.len() == 0 {
        Seq::empty()
    } else {
        items_view(items.drop_last()).push(part_item_view(items.last()))
    }
}

/// `items_view` maps the sequence pointwise.
pub proof fn lemma_items_view(items: Seq<PartItem>)
    ensures
        items_view(items).len() == items.len(),
        forall|i: int| 0 <= i < items.len() ==> items_view(items)[i] == part_item_view(items[i]),
    decreases items,
{
    if items.len() > 0 {
        lemma_items_view(items.drop_last());
    }
}

impl View for PartItem {
    type V = PartItemView;

    open spec fn view(&self) -> PartItemView {
        part_item_view(*self)
    }
}

/// What handling one part may yield: the disposition, name and schema
/// resolution are functions of the part and form, and the body is decoded
/// exactly as the resolved terminator prescribes; only a file part's
/// stored path, answered by the generator, is left open.
pub open spec fn stream_field_rel<G>(
    p: PartView,
    form: Form<G>,
    r: Result<(Seq<NamePartView>, ContentView), Error>,
) -> bool {
    match p.content_disposition {
        None => r == Err::<(Seq<NamePartView>, ContentView), Error>(Error::ContentDisposition),
        Some(h) => {
            let cd = disposition_of(h);
            match cd.name {
                None => r == Err::<(Seq<NamePartView>, ContentView), Error>(Error::Field),
                Some(nm) => {
                    if !name_parse_ok(nm) {
                        r == Err::<(Seq<NamePartView>, ContentView), Error>(
                            Error::ContentDisposition,
                        )
                    } else {
                        let path = parsed_name(nm);
                        match map_match(form.inner, path) {
                            None => r == Err::<(Seq<NamePartView>, ContentView), Error>(
                                Error::FieldType,
                            ),
                            Some(ft) => if term_view(ft) is File {
                                match r {
                                    Ok((pa, c)) => pa == path && file_upload_rel(
                                        p.body,
                                        cd.filename,
                                        form.max_file_size as int,
                                        Ok(c),
                                    ),
                                    Err(e) => file_upload_rel(
                                        p.body,
                                        cd.filename,
                                        form.max_file_size as int,
                                        Err(e),
                                    ),
                                }
                            } else {
                                match r {
                                    Ok((pa, c)) => pa == path && form_data_spec(
                                        p.body,
                                        term_view(ft),
                                        form.max_field_size as int,
                                    ) == Ok::<ContentView, Error>(c),
                                    Err(e) => form_data_spec(
                                        p.body,
                                        term_view(ft),
                                        form.max_field_size as int,
                                    ) == Err::<ContentView, Error>(e),
                                }
                            },
                        }
                    }
                },
            }
        },
    }
}

/// Handle one part: parse its disposition, resolve its name path against
/// the schema, and decode its body as a file upload or a scalar.
pub fn handle_stream_field<G: FilenameGenerator>(part: &Part, form: &Form<G>) -> (r: Result<
    (Vec<NamePart>, MultipartContent),
    Error,
>)
    ensures
        match r {
            Ok(h) => stream_field_rel(part@, *form, Ok((h.0.deep_view(), h.1@))),
            Err(e) => stream_field_rel(part@, *form, Err(e)),
        },
{
    let hdr = match &part.content_disposition {
        Some(s) => Some(s.as_str()),
        None => None,
    };
    let cd = match parse_content_disposition(hdr) {
        Ok(cd) => cd,
        Err(e) => {
            return Err(e);
        },
    };
    let crate::disposition::ContentDisposition { name, filename } = cd;
    let name_str = match name {
        Some(n) => n,
        None => {
            return Err(Error::Field);
        },
    };
    let path = match parse_multipart_name(name_str) {
        Ok(p) => p,
        Err(e) => {
            return Err(e);
        },
    };
    let term = match form.valid_field(&path) {
        Some(t) => t,
        None => {
            return Err(Error::FieldType);
        },
    };
    let content = match &term {
        FieldTerminator::File(gen) => handle_file_upload(
            &part.body,
            gen,
            filename,
            part.content_type.as_str(),
            form.max_file_size,
        ),
        _ => handle_form_data(&part.body, &term, form.max_field_size),
    };
    match content {
        Ok(c) => Ok((path, c)),
        Err(e) => Err(e),
    }
}


/// The flattened parts of one stream item: a field part stands for
/// itself, a nested multipart body for its inner parts in order.
pub open spec fn flat_item(p: PartItemView) -> Seq<PartView>
    decreases p,
{
    match p {
        PartItemView::Field(pv) => seq![pv],
        PartItemView::Nested(sub) => flat_items(sub),
    }
}

/// The flattened parts of a whole stream, in arrival order.
pub open spec fn flat_items(items: Seq<PartItemView>) -> Seq<PartView>
    decreases items,
{
    if items.len() == 0 {
        Seq::empty()
    } else {
        flat_item(items[0]) + flat_items(items.drop_first())
    }
}

/// The shapes of a sequence of flattened parts.
pub open spec fn parts_view(parts: Seq<Part>) -> Seq<PartView> {
    parts.map_values(|p: Part| p@)
}

/// Flatten a stream of items into its parts, in arrival order.
pub fn flatten_items(items: Vec<PartItem>) -> (r: Vec<Part>)
    ensures
        parts_view(r@) == flat_items(items_view(items@)),
    decreases items@,
{
    let ghost items0 = items@;
    let mut items = items;
    if items.len() == 0 {
        let r: Vec<Part> = Vec::new();
        proof {
            assert(parts_view(r@) =~= flat_items(items_view(items0)));
        }
        return r;
    }
    let first = items.remove(0);
    proof {
        lemma_items_view(items0);
        lemma_items_view(items@);
        assert(items@ =~= items0.drop_first());
        assert(items_view(items0).drop_first() =~= items_view(items@));
        assert(items_view(items0)[0] == part_item_view(first));
        assert(items_view(items0).len() > 0);
    }
    match first {
        PartItem::Field(p) => {
            let ghost pv = p@;
            let mut rest = flatten_items(items);
            rest.insert(0, p);
            proof {
                let iv0 = items_view(items0);
                assert(parts_view(rest@) =~= seq![pv] + flat_items(items_view(items@)));
                assert(flat_item(iv0[0]) == seq![pv]);
                assert(flat_items(iv0) == flat_item(iv0[0]) + flat_items(iv0.drop_first()));
                assert(parts_view(rest@) == flat_items(iv0));
            }
            rest
        },
        PartItem::Nested(sub) => {
            proof {
                assert(decreases_to!(items0 => sub@));
            }
            let ghost subv = items_view(sub@);
            let mut head = flatten_items(sub);
            let mut tail = flatten_items(items);
            let ghost headv = parts_view(head@);
            let ghost tailv = parts_view(tail@);
            while tail.len() > 0
                invariant
                    parts_view(head@) + parts_view(tail@) =~= headv + tailv,
                decreases tail.len(),
            {
                let x = tail.remove(0);
                let ghost hb = parts_view(head@);
                let ghost tb = parts_view(tail@);
                head.push(x);
                proof {
                    assert(parts_view(head@) =~= hb.push(x@));
                    assert(hb.push(x@) + tb =~= hb + (seq![x@] + tb));
                }
            }
            proof {
                let iv0 = items_view(items0);
                assert(parts_view(tail@) =~= Seq::<PartView>::empty());
                assert(parts_view(head@) =~= headv + tailv);
                assert(flat_item(iv0[0]) == flat_items(subv));
                assert(flat_items(iv0) == flat_item(iv0[0]) + flat_items(iv0.drop_first()));
                assert(parts_view(head@) == flat_items(iv0));
            }
            head
        },
    }
}

/// One accepted field counted against the form's limits: a file payload
/// raises the file count, anything else the field count, each checked
/// strictly against its maximum, so at most `max - 1` items of either kind
/// are accepted.
pub open spec fn count_step(
    st: (Seq<(Seq<NamePartView>, ContentView)>, int, int),
    h: (Seq<NamePartView>, ContentView),
    max_files: int,
    max_fields: int,
) -> Result<(Seq<(Seq<NamePartView>, ContentView)>, int, int), Error> {
    if h.1 is File {
        if st.1 + 1 < max_files {
            Ok((st.0.push(h), st.1 + 1, st.2))
        } else {
            Err(Error::FileCount)
        }
    } else {
        if st.2 + 1 < max_fields {
            Ok((st.0.push(h), st.1, st.2 + 1))
        } else {
            Err(Error::FieldCount)
        }
    }
}

/// What decoding a sequence of flattened parts from a given aggregation
/// state may yield: parts are handled in order, every accepted field is
/// counted at once, and the first failure is the stream's result.
pub open spec fn stream_rel<G>(
    parts: Seq<PartView>,
    form: Form<G>,
    st: (Seq<(Seq<NamePartView>, ContentView)>, int, int),
    out: Result<(Seq<(Seq<NamePartView>, ContentView)>, int, int), Error>,
) -> bool
    decreases parts.len(),
{
    if parts.len() == 0 {
        out == Ok::<(Seq<(Seq<NamePartView>, ContentView)>, int, int), Error>(st)
    } else {
        exists|hr: Result<(Seq<NamePartView>, ContentView), Error>|
            #[trigger] stream_field_rel(parts[0], form, hr) && match hr {
                Ok(h) => match count_step(st, h, form.max_files as int, form.max_fields as int) {
                    Ok(st2) => stream_rel(parts.drop_first(), form, st2, out),
                    Err(e) => out == Err::<
                        (Seq<(Seq<NamePartView>, ContentView)>, int, int),
                        Error,
                    >(e),
                },
                Err(e) => out == Err::<(Seq<(Seq<NamePartView>, ContentView)>, int, int), Error>(
                    e,
                ),
            }
    }
}

/// A part whose name parses but fits no declared field is always rejected
/// with a field-type error, whatever its body holds.
pub proof fn lemma_unmatched_part_is_rejected<G>(
    p: PartView,
    form: Form<G>,
    r: Result<(Seq<NamePartView>, ContentView), Error>,
)
    requires
        p.content_disposition matches Some(h) && disposition_of(h).name matches Some(nm)
            && name_parse_ok(nm) && map_match(form.inner, parsed_name(nm)) is None,
        stream_field_rel(p, form, r),
    ensures
        r == Err::<(Seq<NamePartView>, ContentView), Error>(Error::FieldType),
{
}

/// A part resolved to a scalar terminator decodes deterministically: its
/// outcome is exactly what the scalar decode of its body says, under its
/// parsed path. In particular a body at or over the field size limit
/// yields the field-size error, and an integer field whose trimmed body
/// is no integer literal yields the integer-parse error.
pub proof fn lemma_scalar_part_is_deterministic<G>(
    p: PartView,
    form: Form<G>,
    ft: FieldTerminator<G>,
    r: Result<(Seq<NamePartView>, ContentView), Error>,
)
    requires
        p.content_disposition matches Some(h) && disposition_of(h).name matches Some(nm)
            && name_parse_ok(nm) && map_match(form.inner, parsed_name(nm)) == Some(ft),
        !(term_view(ft) is File),
        stream_field_rel(p, form, r),
    ensures
        ({
            let h = p.content_disposition.unwrap();
            let path = parsed_name(disposition_of(h).name.unwrap());
            match form_data_spec(p.body, term_view(ft), form.max_field_size as int) {
                Ok(c) => r == Ok::<(Seq<NamePartView>, ContentView), Error>((path, c)),
                Err(e) => r == Err::<(Seq<NamePartView>, ContentView), Error>(e),
            }
        }),
{
}

/// Decoding is fail-fast: when the first part of a stream can only fail
/// with one error, the whole decode reports that error, whatever parts
/// follow and whatever was accepted before.
pub proof fn lemma_first_failure_aborts<G>(
    parts: Seq<PartView>,
    form: Form<G>,
    st: (Seq<(Seq<NamePartView>, ContentView)>, int, int),
    out: Result<(Seq<(Seq<NamePartView>, ContentView)>, int, int), Error>,
    e: Error,
)
    requires
        parts.len() > 0,
        forall|hr: Result<(Seq<NamePartView>, ContentView), Error>|
            stream_field_rel(parts[0], form, hr) ==> hr == Err::<
                (Seq<NamePartView>, ContentView),
                Error,
            >(e),
        stream_rel(parts, form, st, out),
    ensures
        out == Err::<(Seq<(Seq<NamePartView>, ContentView)>, int, int), Error>(e),
{
}

/// A part that can only fail leaves the whole decode with no value:
/// whatever stands before or after it in the stream, and whatever was
/// already accepted, the decode's result is an error.
pub proof fn lemma_failing_part_yields_no_value<G>(
    parts: Seq<PartView>,
    form: Form<G>,
    st: (Seq<(Seq<NamePartView>, ContentView)>, int, int),
    out: Result<(Seq<(Seq<NamePartView>, ContentView)>, int, int), Error>,
    i: int,
)
    requires
        0 <= i < parts.len(),
        forall|hr: Result<(Seq<NamePartView>, ContentView), Error>|
            stream_field_rel(parts[i], form, hr) ==> hr is Err,
        stream_rel(parts, form, st, out),
    ensures
        out is Err,
    decreases i,
{
    let rest = parts.drop_first();
    assert(exists|hr: Result<(Seq<NamePartView>, ContentView), Error>|
        #[trigger] stream_field_rel(parts[0], form, hr) && match hr {
            Ok(h) => match count_step(st, h, form.max_files as int, form.max_fields as int) {
                Ok(st2) => stream_rel(rest, form, st2, out),
                Err(e) => out == Err::<
                    (Seq<(Seq<NamePartView>, ContentView)>, int, int),
                    Error,
                >(e),
            },
            Err(e) => out == Err::<(Seq<(Seq<NamePartView>, ContentView)>, int, int), Error>(e),
        });
    let hr = choose|hr: Result<(Seq<NamePartView>, ContentView), Error>|
        #[trigger] stream_field_rel(parts[0], form, hr) && match hr {
            Ok(h) => match count_step(st, h, form.max_files as int, form.max_fields as int) {
                Ok(st2) => stream_rel(rest, form, st2, out),
                Err(e) => out == Err::<
                    (Seq<(Seq<NamePartView>, ContentView)>, int, int),
                    Error,
                >(e),
            },
            Err(e) => out == Err::<(Seq<(Seq<NamePartView>, ContentView)>, int, int), Error>(e),
        };
    match hr {
        Err(_) => {
        },
        Ok(h) => {
            if i == 0 {
                assert(hr is Err);
            } else {
                match count_step(st, h, form.max_files as int, form.max_fields as int) {
                    Err(_) => {
                    },
                    Ok(st2) => {
                        assert(rest[i - 1] == parts[i]);
                        lemma_failing_part_yields_no_value(rest, form, st2, out, i - 1);
                    },
                }
            }
        },
    }
}

/// A scalar field whose body stands at or over the field size limit
/// leaves the whole decode with no value; when it is the stream's first
/// failing part, the decode's error is the field-size error, as
/// [`lemma_first_failure_aborts`] and [`lemma_scalar_part_is_deterministic`]
/// pin down.
pub proof fn lemma_oversized_field_aborts_decode<G>(
    parts: Seq<PartView>,
    form: Form<G>,
    st: (Seq<(Seq<NamePartView>, ContentView)>, int, int),
    out: Result<(Seq<(Seq<NamePartView>, ContentView)>, int, int), Error>,
    i: int,
    ft: FieldTerminator<G>,
)
    requires
        0 <= i < parts.len(),
        parts[i].content_disposition matches Some(h) && disposition_of(h).name matches Some(nm)
            && name_parse_ok(nm) && map_match(form.inner, parsed_name(nm)) == Some(ft),
        !(term_view(ft) is File),
        !field_size_ok(parts[i].body, form.max_field_size as int),
        stream_rel(parts, form, st, out),
    ensures
        out is Err,
{
    assert forall|hr: Result<(Seq<NamePartView>, ContentView), Error>|
        stream_field_rel(parts[i], form, hr) implies hr is Err by {
        lemma_scalar_part_is_deterministic(parts[i], form, ft, hr);
    }
    lemma_failing_part_yields_no_value(parts, form, st, out, i);
}

/// An integer field whose trimmed body is no integer literal leaves the
/// whole decode with no value — the decode aborts, not just that field;
/// when it is the stream's first failing part, the decode's error is the
/// integer-parse error.
pub proof fn lemma_bad_integer_aborts_decode<G>(
    parts: Seq<PartView>,
    form: Form<G>,
    st: (Seq<(Seq<NamePartView>, ContentView)>, int, int),
    out: Result<(Seq<(Seq<NamePartView>, ContentView)>, int, int), Error>,
    i: int,
    ft: FieldTerminator<G>,
)
    requires
        0 <= i < parts.len(),
        parts[i].content_disposition matches Some(h) && disposition_of(h).name matches Some(nm)
            && name_parse_ok(nm) && map_match(form.inner, parsed_name(nm)) == Some(ft),
        term_view(ft) is Int,
        field_size_ok(parts[i].body, form.max_field_size as int),
        valid_utf8(concat_chunks(parts[i].body)),
        int_literal_parse(ws_trimmed(decode_utf8(concat_chunks(parts[i].body)))) is None,
        stream_rel(parts, form, st, out),
    ensures
        out is Err,
{
    assert forall|hr: Result<(Seq<NamePartView>, ContentView), Error>|
        stream_field_rel(parts[i], form, hr) implies hr is Err by {
        lemma_scalar_part_is_deterministic(parts[i], form, ft, hr);
    }
    lemma_failing_part_yields_no_value(parts, form, st, out, i);
}

/// Count one accepted field against the form's limits: a file payload
/// raises the file count, anything else the field count, each checked
/// strictly against its maximum — the counter step of [`count_step`], for
/// callers that interleave their own I/O with the accounting.
pub fn count_field(
    content: &MultipartContent,
    file_count: u32,
    field_count: u32,
    max_files: u32,
    max_fields: u32,
) -> (r: Result<(u32, u32), Error>)
    ensures
        match r {
            Ok(counts) => {
                if content@ is File {
                    file_count + 1 < max_files && counts == (
                        (file_count + 1) as u32,
                        field_count,
                    )
                } else {
                    field_count + 1 < max_fields && counts == (
                        file_count,
                        (field_count + 1) as u32,
                    )
                }
            },
            Err(e) => {
                if content@ is File {
                    e == Error::FileCount && file_count + 1 >= max_files
                } else {
                    e == Error::FieldCount && field_count + 1 >= max_fields
                }
            },
        },
{
    let is_file = match content {
        MultipartContent::File { .. } => true,
        _ => false,
    };
    if is_file {
        if (file_count as u64) + 1 < (max_files as u64) {
            Ok((file_count + 1, field_count))
        } else {
            Err(Error::FileCount)
        }
    } else {
        if (field_count as u64) + 1 < (max_fields as u64) {
            Ok((file_count, field_count + 1))
        } else {
            Err(Error::FieldCount)
        }
    }
}

/// The shape of an aggregation state: the accepted fields and the two
/// counters.
pub open spec fn st_view(st: (MultipartForm, u32, u32)) -> (
    Seq<(Seq<NamePartView>, ContentView)>,
    int,
    int,
) {
    (crate::value::form_view(st.0@), st.1 as int, st.2 as int)
}

/// Decode a sequence of flattened parts from a given aggregation state:
/// handle each part in order and count every accepted field against the
/// form's limits.
pub fn handle_stream<G: FilenameGenerator>(
    parts: Vec<Part>,
    form: &Form<G>,
    st: (MultipartForm, u32, u32),
) -> (r: Result<(MultipartForm, u32, u32), Error>)
    ensures
        match r {
            Ok(st2) => stream_rel(parts_view(parts@), *form, st_view(st), Ok(st_view(st2))),
            Err(e) => stream_rel(parts_view(parts@), *form, st_view(st), Err(e)),
        },
    decreases parts@.len(),
{
    let ghost parts0 = parts@;
    let ghost st0 = st_view(st);
    let mut parts = parts;
    let (mut mf, mut file_count, mut field_count) = st;
    if parts.len() == 0 {
        return Ok((mf, file_count, field_count));
    }
    let p = parts.remove(0);
    proof {
        assert(parts@ =~= parts0.drop_first());
        assert(parts_view(parts0).drop_first() =~= parts_view(parts@));
        assert(parts_view(parts0)[0] == p@);
    }
    let h = match handle_stream_field(&p, form) {
        Ok(h) => h,
        Err(e) => {
            proof {
                assert(stream_field_rel(p@, *form, Err::<
                    (Seq<NamePartView>, ContentView),
                    Error,
                >(e)));
            }
            return Err(e);
        },
    };
    let ghost hv = (h.0.deep_view(), h.1@);
    match count_field(&h.1, file_count, field_count, form.max_files, form.max_fields) {
        Ok(counts) => {
            file_count = counts.0;
            field_count = counts.1;
        },
        Err(e) => {
            proof {
                assert(stream_field_rel(p@, *form, Ok::<
                    (Seq<NamePartView>, ContentView),
                    Error,
                >(hv)));
            }
            return Err(e);
        },
    }
    let ghost before = crate::value::form_view(mf@);
    mf.push(h);
    proof {
        assert(crate::value::form_view(mf@) =~= before.push(hv));
        assert(stream_field_rel(p@, *form, Ok::<(Seq<NamePartView>, ContentView), Error>(hv)));
    }
    let r = handle_stream(parts, form, (mf, file_count, field_count));
    proof {
        match &r {
            Ok(st2) => {
                assert(stream_rel(parts_view(parts0), *form, st0, Ok(st_view(*st2))));
            },
            Err(e) => {
                assert(stream_rel(parts_view(parts0), *form, st0, Err::<
                    (Seq<(Seq<NamePartView>, ContentView)>, int, int),
                    Error,
                >(*e)));
            },
        }
    }
    r
}

/// Decode a whole multipart body against a declared form.
///
/// Every part is handled in arrival order, with nested multipart bodies
/// flattened into the same order first; each accepted field is counted
/// against the form's limits, and the accepted fields are consolidated
/// into one value tree, always a map at top level. The first failing part
/// aborts the whole decode with its error; no partial result is returned.
pub fn handle_multipart<G: FilenameGenerator>(items: Vec<PartItem>, form: &Form<G>) -> (r: Result<
    Value,
    Error,
>)
    ensures
        match r {
            Ok(v) => (exists|fin: (Seq<(Seq<NamePartView>, ContentView)>, int, int)|
                #[trigger] stream_rel(
                    flat_items(items_view(items@)),
                    *form,
                    (Seq::<(Seq<NamePartView>, ContentView)>::empty(), 0, 0),
                    Ok(fin),
                ) && v@ == consolidated(fin.0)) && v@ is Mapping,
            Err(e) => stream_rel(
                flat_items(items_view(items@)),
                *form,
                (Seq::<(Seq<NamePartView>, ContentView)>::empty(), 0, 0),
                Err(e),
            ),
        },
{
    let parts = flatten_items(items);
    let st: (MultipartForm, u32, u32) = (Vec::new(), 0u32, 0u32);
    proof {
        assert(st_view(st).0 =~= Seq::<(Seq<NamePartView>, ContentView)>::empty());
    }
    match handle_stream(parts, form, st) {
        Ok(st2) => {
            let (mf, _, _) = st2;
            let ghost fin = st_view(st2);
            let v = consolidate(mf);
            proof {
                crate::value::lemma_consolidated_is_mapping(fin.0);
            }
            Ok(v)
        },
        Err(e) => Err(e),
    }
}

} // verus!
