//! Abstractions over the host environment. The library's logic is verified
//! against these interfaces; the binary supplies real implementations, and
//! tests supply in-memory ones.

use crate::types::HttpHeaders;
use vstd::prelude::*;

verus! {

/// A response as seen by an [`HttpClient`].
#[derive(Debug, Clone)]
pub struct HttpResponse {
    pub status_code: u16,
    pub headers: Vec<(String, String)>,
    pub body: Vec<u8>,
    pub elapsed_ms: u64,
}

/// An HTTP client capable of one buffered request/response exchange.
pub trait HttpClient {
    fn request(
        &self,
        method: &str,
        url: &str,
        headers: Option<&HttpHeaders>,
        body: Option<&[u8]>,
    ) -> Result<HttpResponse, String>;
}

/// File storage for inventory data. Nothing is assumed of the outside world,
/// so these methods carry no contracts; callers state what holds whatever
/// comes back.
pub trait FileSystem {
    fn read(&self, path: &str) -> Result<Vec<u8>, String>;

    fn write(&self, path: &str, content: &[u8]) -> Result<(), String>;

    fn create_dir_all(&self, path: &str) -> Result<(), String>;

    fn path_exists(&self, path: &str) -> bool;

    fn read_to_string(&self, path: &str) -> Result<String, String>;

    fn write_string(&self, path: &str, content: &str) -> Result<(), String>;
}

/// A monotonic clock reporting milliseconds.
pub trait TimeProvider {
    fn now_ms(&self) -> u64;

    fn elapsed_since(&self, start: u64) -> u64;
}

/// Discovery of a free local port.
pub trait PortFinder {
    fn find_available_port(&self, start_port: u16) -> Result<u16, String>;
}

} // verus!
