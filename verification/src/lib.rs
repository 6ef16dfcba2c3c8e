//! Decoding of multipart/form-data bodies into a typed, nested value tree.
//!
//! A caller declares a schema of named fields (scalars, files, arrays and
//! nested maps), then feeds the decoded parts of a multipart body through
//! [`handle_multipart`]. Field names use bracket notation (`name`,
//! `name[key]`, `name[key][]`, `name[]`); each part is matched against the
//! schema, scalar parts are buffered and parsed, file parts are routed to a
//! caller-supplied filename generator, and the accepted results are merged
//! into one nested [`Value`] under strict field and file count and size
//! limits.

mod buf;
mod disposition;
mod error;
mod handler;
mod name;
mod numeric;
mod schema;
mod text;
mod value;

pub use crate::buf::bytes_view;
pub use crate::buf::buffer_view;
pub use crate::disposition::ContentDisposition;
pub use crate::disposition::DispositionView;
pub use crate::disposition::parse_content_disposition;
pub use crate::error::Error;
pub use crate::handler::check_file_size;
pub use crate::handler::check_filename;
pub use crate::handler::count_field;
pub use crate::handler::handle_file_upload;
pub use crate::handler::flatten_items;
pub use crate::handler::handle_form_data;
pub use crate::handler::handle_multipart;
pub use crate::handler::handle_stream;
pub use crate::handler::handle_stream_field;
pub use crate::handler::Part;
pub use crate::handler::PartItem;
pub use crate::handler::PartItemView;
pub use crate::handler::PartView;
pub use crate::name::NamePart;
pub use crate::name::NamePartView;
pub use crate::name::parse_multipart_name;
pub use crate::numeric::check_float;
pub use crate::numeric::parse_i64;
pub use crate::numeric::trim_ws;
pub use crate::schema::Array;
pub use crate::schema::Field;
pub use crate::schema::FieldTerminator;
pub use crate::schema::FilenameGenerator;
pub use crate::schema::Form;
pub use crate::schema::MapField;
pub use crate::schema::TermView;
pub use crate::value::consolidate;
pub use crate::value::ContentView;
pub use crate::value::MultipartContent;
pub use crate::value::MultipartForm;
pub use crate::value::MultipartHash;
pub use crate::value::Value;
pub use crate::value::ValueView;