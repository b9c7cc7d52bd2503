//! What an HTTP request carries besides its address.

use std::collections::HashMap;
use vstd::prelude::*;

verus! {

/// Configuration of a request: the headers to send.
#[derive(Clone, PartialEq, Eq)]
pub struct RequestCfg {
    pub headers: HashMap<String, String>,
}

impl Default for RequestCfg {
    fn default() -> (r: Self)
        ensures
            r.headers@ == Map::<String, String>::empty(),
    {
        RequestCfg { headers: HashMap::new() }
    }
}

} // verus!
