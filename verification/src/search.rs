//! Trace search requests: which bucket and key prefix to list.

use vstd::prelude::*;
use vstd::string::StringExecFns;

verus! {

/// Query parameters of a search: the search text (a key prefix) and the
/// bucket.
#[derive(Debug, Clone)]
pub struct SearchParams {
    pub q: Option<String>,
    pub bucket: Option<String>,
}

/// Why a search request was refused.
#[derive(Debug, Clone, Copy, PartialEq, Eq, Structural)]
pub enum SearchError {
    /// Neither the request nor the server names a bucket.
    BucketRequired,
}

/// `prefix`, a slash and `q`.
fn join_prefix(prefix: &str, q: &str) -> (r: String)
    ensures
        r@ == prefix@ + "/"@ + q@,
{
    let mut r = prefix.to_owned();
    r.append("/");
    r.append(q);
    r
}

/// The key prefix listed for a query under the server's default prefix.
pub open spec fn search_prefix(default_prefix: Option<Seq<char>>, q: Option<Seq<char>>) -> Seq<char> {
    match (default_prefix, q) {
        (Some(p), Some(q)) => p + "/"@ + q,
        (Some(p), None) => p,
        (None, Some(q)) => q,
        (None, None) => Seq::empty(),
    }
}

pub open spec fn opt_view(o: Option<String>) -> Option<Seq<char>> {
    match o {
        Some(s) => Some(s@),
        None => None,
    }
}

/// The bucket and key prefix to list: the request's bucket, else the
/// server's default (an error if neither is given), and the query under the
/// default prefix.
pub fn search_target(
    params: &SearchParams,
    default_bucket: &Option<String>,
    default_prefix: &Option<String>,
) -> (r: Result<(String, String), SearchError>)
    ensures
        match r {
            Ok((bucket, prefix)) => {
                &&& bucket@ == match params.bucket {
                    Some(b) => b@,
                    None => default_bucket.unwrap()@,
                }
                &&& prefix@ == search_prefix(opt_view(*default_prefix), opt_view(params.q))
            },
            Err(e) => e == SearchError::BucketRequired && params.bucket is None && default_bucket is None,
        },
        r is Err <==> (params.bucket is None && default_bucket is None),
{
    let bucket = match &params.bucket {
        Some(b) => b.clone(),
        None => match default_bucket {
            Some(b) => b.clone(),
            None => return Err(SearchError::BucketRequired),
        },
    };
    let prefix = match (default_prefix, &params.q) {
        (Some(p), Some(q)) => join_prefix(p.as_str(), q.as_str()),
        (Some(p), None) => p.clone(),
        (None, Some(q)) => q.clone(),
        (None, None) => String::new(),
    };
    Ok((bucket, prefix))
}

} // verus!
