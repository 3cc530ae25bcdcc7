//! The HTTP responder core: a pure function from the embedded blob to the one
//! response this system ever serves. The blob is fixed at process start, so
//! the handler has no state and no failure path.

use vstd::prelude::*;
use vstd::string::StringExecFns;
use crate::selector::clone_bytes;

verus! {

/// The response of the one route: the status code, the two header values the
/// route sets, and the embedded blob served verbatim as the body.
pub struct SourceResponse {
    pub status: u16,
    pub content_type: String,
    pub content_disposition: String,
    pub body: Vec<u8>,
}

/// The fixed route path under which the archive is served.
pub fn route_path() -> (r: String)
    ensures
        r@ == "/hector"@,
{
    String::from_str("/hector")
}

/// The fixed file name under which the blob is persisted in the build-output
/// directory.
pub fn archive_file_name() -> (r: String)
    ensures
        r@ == "hector_sources.tar.gz"@,
{
    String::from_str("hector_sources.tar.gz")
}

/// Serve the embedded blob: status 200, the blob verbatim as the full body,
/// the archive's compressed-tar media type, and a suggested download name.
pub fn respond(blob: &Vec<u8>) -> (r: SourceResponse)
    ensures
        r.status == 200,
        r.body@ == blob@,
        r.content_type@ == "application/gzip"@,
        r.content_disposition@ == "attachment; filename=\"sources.tar.gz\""@,
{
    SourceResponse {
        status: 200,
        content_type: String::from_str("application/gzip"),
        content_disposition: String::from_str("attachment; filename=\"sources.tar.gz\""),
        body: clone_bytes(blob),
    }
}

} // verus!
