//! Data records of the surrounding application: an enrolled user with a
//! stored fingerprint template, and a site credential belonging to a user.
//! The library holds them as plain values; storage and display live with
//! the caller.

use vstd::prelude::*;

verus! {

/// An enrolled identity: the fingerprint template is the processed ridge map
/// flattened to row-major bytes.
#[derive(Debug)]
pub struct User {
    pub id: i64,
    pub username: String,
    pub fingerprint_image: Vec<u8>,
}

/// A stored site credential of an enrolled user.
#[derive(Debug, Clone, PartialEq)]
pub struct Credential {
    pub id: i32,
    pub username: String,
    pub site: String,
    pub site_username: String,
    pub site_password: String,
}

} // verus!
