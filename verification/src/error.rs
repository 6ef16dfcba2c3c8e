//! The error taxonomy of the decoder.

use vstd::prelude::*;

verus! {

/// Everything that can go wrong while decoding a multipart body.
///
/// Transport errors (`FsPool`, `Payload`, `Multipart`) are reported by the
/// surrounding I/O driver; the remaining variants are raised by the decoding
/// logic itself.
#[derive(Clone, Copy, Debug, PartialEq, Eq, Structural)]
pub enum Error {
    /// Saving an uploaded file to storage failed.
    FsPool,
    /// The transport failed while producing the request payload.
    Payload,
    /// The multipart stream itself was malformed.
    Multipart,
    /// A scalar field body was not valid UTF-8 text.
    ParseField,
    /// An integer-typed field body was not a full integer literal.
    ParseInt,
    /// A float-typed field body was not a full numeric literal.
    ParseFloat,
    /// The filename generator declined to produce a storage path.
    GenFilename,
    /// The Content-Type header of a part was unusable.
    ContentType,
    /// The Content-Disposition header was missing or malformed.
    ContentDisposition,
    /// Creating the directory for an uploaded file failed.
    MkDir,
    /// A part carried no field name.
    Field,
    /// Too many scalar fields in the request.
    FieldCount,
    /// A scalar field body was too large.
    FieldSize,
    /// A part's name or content did not fit the declared schema.
    FieldType,
    /// A file part carried no usable filename.
    Filename,
    /// Too many file uploads in the request.
    FileCount,
    /// An uploaded file was too large.
    FileSize,
}

impl Error {
    /// True for the errors that are the server's fault; the rest blame the
    /// request.
    pub open spec fn spec_is_server_error(self) -> bool {
        self == Error::FsPool || self == Error::GenFilename || self == Error::MkDir
    }

    /// The HTTP status code that reports this error: 500 for server-side
    /// failures (storage, filename generation, directory creation), 400 for
    /// everything the client sent.
    pub fn http_status(&self) -> (code: u16)
        ensures
            code == 500 <==> self.spec_is_server_error(),
            code == 500 || code == 400,
    {
        match self {
            Error::FsPool => 500,
            Error::GenFilename => 500,
            Error::MkDir => 500,
            _ => 400,
        }
    }

    /// A short human-readable description of the error.
    pub fn message(&self) -> &'static str {
        match self {
            Error::FsPool => "Error saving file",
            Error::Payload => "Error parsing payload",
            Error::Multipart => "Error in multipart creation",
            Error::ParseField => "Failed to parse field",
            Error::ParseInt => "Failed to parse int",
            Error::ParseFloat => "Failed to parse float",
            Error::GenFilename => "Failed to generate filename",
            Error::ContentType => "Bad Content-Type",
            Error::ContentDisposition => "Bad Content-Disposition",
            Error::MkDir => "Failed to make directory for upload",
            Error::Field => "Failed to parse field name",
            Error::FieldCount => "Too many fields in request",
            Error::FieldSize => "Field too large",
            Error::FieldType => "Found field with unexpected name or type",
            Error::Filename => "Failed to parse filename",
            Error::FileCount => "Too many files in request",
            Error::FileSize => "File too large",
        }
    }
}

} // verus!
