//! Long-running front-ends started at boot; only their configuration lives
//! here.

use vstd::prelude::*;

verus! {

/// Configuration of the HTTP front-end.
#[derive(Clone, Debug)]
pub struct HttpService {
    pub port: u16,
    pub address: String,
    pub path: String,
    pub readonly: bool,
    pub see_root: bool,
    pub admin: bool,
    pub style_path: String,
    pub script_path: String,
}

/// The kinds of front-end.
#[derive(Clone, Debug)]
pub enum ServiceType {
    Http(HttpService),
}

} // verus!
