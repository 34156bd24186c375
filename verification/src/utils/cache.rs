//! Which model files to download.

use vstd::prelude::*;

verus! {

/// How a model file is made available.
#[derive(Debug)]
pub struct CachePlan {
    /// The name under which the file lies in the cache directory.
    pub filename: String,
    /// Where to download the file from first, if it is not there yet.
    pub download: Option<String>,
}

/// Plan how to ensure that a model file is downloaded and cached: a file that is
/// `cached` is used as it is, and any other is downloaded from `url` first.
pub fn ensure_file(url: &str, filename: &str, cached: bool) -> (r: CachePlan)
    ensures
        r.filename@ == filename@,
        match r.download {
            None => cached,
            Some(from) => !cached && from@ == url@,
        },
{
    CachePlan {
        filename: filename.to_owned(),
        download: if cached {
            None
        } else {
            Some(url.to_owned())
        },
    }
}

} // verus!
