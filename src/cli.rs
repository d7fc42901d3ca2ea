//! The command-line options of the fuzzer, as plain values.
use vstd::prelude::*;

verus! {

/// Options of one run.
#[derive(Debug)]
pub struct Cli {
    /// The target URL, with `FUZZ` where each word goes.
    pub target: String,
    /// Path to the wordlist file.
    pub wordlist: String,
    /// Most requests in flight at once.
    pub concurrency: usize,
    /// Status codes to keep, comma-separated.
    pub match_status: Option<String>,
    /// Content-length ranges to keep, comma-separated.
    pub match_size: Option<String>,
    /// Line-count ranges to keep, comma-separated.
    pub match_lines: Option<String>,
    /// Status codes to drop, comma-separated.
    pub filter_status: Option<String>,
    /// Content-length ranges to drop, comma-separated.
    pub filter_size: Option<String>,
    /// Line-count ranges to drop, comma-separated.
    pub filter_lines: Option<String>,
    /// Request timeout in seconds.
    pub timeout: u64,
    /// Most redirects followed per request.
    pub redirects: usize,
    /// Pause before each request, in milliseconds.
    pub delay: u64,
    /// Extra request headers, as `name: value` pairs separated by commas.
    pub headers: Option<String>,
    /// Value of the `Cookie` header.
    pub cookies: Option<String>,
}

} // verus!
